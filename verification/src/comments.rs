//! Why a byte that is not a command is a comment: a program with such a
//! byte inserted runs step for step as the program without it.
use vstd::prelude::*;

use crate::interp::{
    advanced, awaits_input, banks, cell, closing, faults, fed, frame_ok, is_command_byte,
    machine_ok, new_frame, owned_banks, pending_input, popped, started, step_result, top,
    with_top, with_top_cell, Action, FrameView, MachineView, Task,
};
use crate::scan::scope_end;

verus! {

/// Where index `i` of a program goes when a byte is inserted at `p`.
pub open spec fn shifted(i: int, p: int) -> int {
    if i >= p {
        i + 1
    } else {
        i
    }
}

/// The bytes `b` with `x` inserted at index `p`.
pub open spec fn with_byte(b: Seq<u8>, p: int, x: u8) -> Seq<u8> {
    b.take(p) + seq![x] + b.skip(p)
}

/// Index `k2` of the program with a byte inserted at `p` stands for index
/// `k` of the program without it: moved past the inserted byte, or, at `p`
/// itself, just before it.
pub open spec fn index_rel(k: int, k2: int, p: int) -> bool {
    k2 == shifted(k, p) || (k == p && k2 == p)
}

/// An optional index, moved by the insertion at `p`.
pub open spec fn opt_shifted(r: Option<int>, p: int) -> Option<int> {
    match r {
        Some(j) => Some(shifted(j, p)),
        None => None,
    }
}

/// A scan for a closing bracket passes over an inserted byte that is no
/// bracket and no backtick, and finds the same bracket, moved.
pub proof fn lemma_scope_end_insert(
    b: Seq<u8>,
    p: int,
    x: u8,
    k: int,
    k2: int,
    depth: nat,
    skip: bool,
    open: u8,
    close: u8,
)
    requires
        0 <= p <= b.len(),
        0 <= k,
        x != 96 && x != open && x != close,
        p > 0 ==> b[p - 1] != 96,
        index_rel(k, k2, p),
        k == p ==> !skip,
    ensures
        scope_end(with_byte(b, p, x), k2, depth, skip, open, close) == opt_shifted(
            scope_end(b, k, depth, skip, open, close),
            p,
        ),
    decreases b.len() - k, if k2 == p && k == p {
        1int
    } else {
        0int
    },
{
    let b2 = with_byte(b, p, x);
    assert(b2.len() == b.len() + 1);
    if k == p && k2 == p {
        assert(b2[p] == x);
        lemma_scope_end_insert(b, p, x, k, p + 1, depth, skip, open, close);
    } else if k < b.len() {
        assert(b2[k2] == b[k]);
        if skip {
            lemma_scope_end_insert(b, p, x, k + 1, k2 + 1, depth, false, open, close);
        } else if b[k] == 96 {
            lemma_scope_end_insert(b, p, x, k + 1, k2 + 1, depth, true, open, close);
        } else if b[k] == open {
            lemma_scope_end_insert(b, p, x, k + 1, k2 + 1, depth + 1, false, open, close);
        } else if b[k] == close {
            if depth > 1 {
                lemma_scope_end_insert(b, p, x, k + 1, k2 + 1, (depth - 1) as nat, false, open, close);
            }
        } else {
            lemma_scope_end_insert(b, p, x, k + 1, k2 + 1, depth, false, open, close);
        }
    }
}

/// The tasks of two related frames: a function call's body starts at
/// related indices, and its definition is moved.
pub open spec fn task_rel(t: Task, t2: Task, p: int) -> bool {
    match t {
        Task::Main(_) => t2 is Main,
        Task::Function(first, def) => match t2 {
            Task::Function(first2, def2) => index_rel(first as int, first2 as int, p) && def2 == shifted(
                def as int,
                p,
            ),
            Task::Main(_) => false,
        },
    }
}

/// Frame `g` of the program with a byte inserted at `p` stands for frame
/// `f` of the program without it: the same state, every index moved.
pub open spec fn frame_rel(f: FrameView, g: FrameView, p: int) -> bool {
    &&& index_rel(f.id as int, g.id as int, p)
    &&& (g.id == p ==> !f.in_comment)
    &&& g.current_reg == f.current_reg
    &&& task_rel(f.task, g.task, p)
    &&& g.loops.len() == f.loops.len()
    &&& forall|i: int| 0 <= i < f.loops.len() ==> #[trigger] g.loops[i] == shifted(f.loops[i] as int, p)
    &&& g.funcs.dom() == f.funcs.dom()
    &&& forall|k: u32| #[trigger] f.funcs.contains_key(k) ==> g.funcs[k] == shifted(f.funcs[k] as int, p)
    &&& g.input == f.input
    &&& g.in_comment == f.in_comment
    &&& g.regs == f.regs
    &&& g.main_regs == f.main_regs
    &&& g.owns_regs == f.owns_regs
}

/// Machine `m2` runs the program of `m` with the byte `x`, no command,
/// inserted at `p`, where no backtick comes just before it; and it stands
/// where `m` stands.
pub open spec fn machines_rel(m: MachineView, m2: MachineView, p: int, x: u8) -> bool {
    &&& 0 <= p <= m.code.len()
    &&& p > 0 ==> m.code[p - 1] != 96
    &&& !is_command_byte(x)
    &&& m2.code == with_byte(m.code, p, x)
    &&& m2.cells == m.cells
    &&& m2.frames.len() == m.frames.len()
    &&& forall|i: int| 0 <= i < m.frames.len() ==> frame_rel(#[trigger] m.frames[i], m2.frames[i], p)
}

/// A program and the same program with a comment byte inserted start in
/// related states.
pub proof fn law_started_related(b: Seq<u8>, p: int, x: u8)
    requires
        0 <= p <= b.len(),
        p > 0 ==> b[p - 1] != 96,
        !is_command_byte(x),
    ensures
        machines_rel(started(b), started(with_byte(b, p, x)), p, x),
{
    let m = started(b);
    let m2 = started(with_byte(b, p, x));
    assert(frame_rel(m.frames[0], m2.frames[0], p));
}

/// Where the running frame of `m2` stands on the inserted byte, `m2` only
/// steps over it, and stays related to `m`.
pub proof fn law_inserted_byte_is_passed(m: MachineView, m2: MachineView, p: int, x: u8)
    requires
        machines_rel(m, m2, p, x),
        m2.code.len() <= usize::MAX,
        m2.frames.len() > 0,
        top(m2).id == p,
    ensures
        !faults(m2),
        !awaits_input(m2),
        step_result(m2).1 == Action::Continue,
        machines_rel(m, step_result(m2).0, p, x),
{
    let n = m.frames.len();
    let f = top(m);
    let g = top(m2);
    assert(frame_rel(m.frames[n - 1], m2.frames[n - 1], p));
    assert(m2.code[p] == x);
    let r = step_result(m2).0;
    assert(f.id == p);
    assert(r.frames[n - 1] == advanced(g));
    assert(advanced(g).id == p + 1);
    assert forall|i: int| 0 <= i < n implies frame_rel(#[trigger] m.frames[i], r.frames[i], p) by {
        if i < n - 1 {
            assert(r.frames[i] == m2.frames[i]);
        }
    }
}

/// The bytes of the program with a byte inserted: the old ones, moved.
proof fn lemma_with_byte_index(b: Seq<u8>, p: int, x: u8, k: int)
    requires
        0 <= p <= b.len(),
        0 <= k < b.len(),
    ensures
        with_byte(b, p, x).len() == b.len() + 1,
        with_byte(b, p, x)[shifted(k, p)] == b[k],
{
}

/// Related frames own the same number of banks.
proof fn lemma_owned_rel(fs: Seq<FrameView>, gs: Seq<FrameView>, p: int)
    requires
        fs.len() == gs.len(),
        forall|i: int| 0 <= i < fs.len() ==> frame_rel(#[trigger] fs[i], gs[i], p),
    ensures
        owned_banks(fs) == owned_banks(gs),
    decreases fs.len(),
{
    if fs.len() > 0 {
        assert(frame_rel(fs[fs.len() - 1], gs[gs.len() - 1], p));
        assert forall|i: int| 0 <= i < fs.drop_last().len() implies frame_rel(
            #[trigger] fs.drop_last()[i],
            gs.drop_last()[i],
            p,
        ) by {
            assert(frame_rel(fs[i], gs[i], p));
        }
        lemma_owned_rel(fs.drop_last(), gs.drop_last(), p);
    }
}

/// Replacing the running frames by related ones (and the cells by the same
/// cells, maybe with one more related frame pushed) keeps machines related.
proof fn lemma_rel_update(
    m: MachineView,
    m2: MachineView,
    p: int,
    x: u8,
    f: FrameView,
    g: FrameView,
    extra: Option<(FrameView, FrameView)>,
    cells: Seq<u32>,
)
    requires
        machines_rel(m, m2, p, x),
        m.frames.len() > 0,
        frame_rel(f, g, p),
        extra matches Some(e) ==> frame_rel(e.0, e.1, p),
    ensures
        ({
            let n = m.frames.len() - 1;
            let fs = m.frames.update(n, f);
            let gs = m2.frames.update(n, g);
            match extra {
                Some(e) => machines_rel(
                    MachineView { code: m.code, frames: fs.push(e.0), cells },
                    MachineView { code: m2.code, frames: gs.push(e.1), cells },
                    p,
                    x,
                ),
                None => machines_rel(
                    MachineView { code: m.code, frames: fs, cells },
                    MachineView { code: m2.code, frames: gs, cells },
                    p,
                    x,
                ),
            }
        }),
{
    let n = m.frames.len() - 1;
    let fs = m.frames.update(n, f);
    let gs = m2.frames.update(n, g);
    assert forall|i: int| 0 <= i < fs.len() implies frame_rel(#[trigger] fs[i], gs[i], p) by {
        if i < n {
            assert(frame_rel(m.frames[i], m2.frames[i], p));
        }
    }
    match extra {
        Some(e) => {
            assert forall|i: int| 0 <= i < fs.push(e.0).len() implies frame_rel(
                #[trigger] fs.push(e.0)[i],
                gs.push(e.1)[i],
                p,
            ) by {
                if i < fs.len() {
                    assert(frame_rel(fs[i], gs[i], p));
                }
            }
        },
        None => {},
    }
}

/// Ending the running frames of related machines keeps them related.
proof fn lemma_rel_popped(m: MachineView, m2: MachineView, p: int, x: u8)
    requires
        machines_rel(m, m2, p, x),
        m.frames.len() > 0,
    ensures
        machines_rel(popped(m), popped(m2), p, x),
{
    let n = m.frames.len();
    assert(frame_rel(m.frames[n - 1], m2.frames[n - 1], p));
    assert forall|i: int| 0 <= i < n - 1 implies frame_rel(
        #[trigger] popped(m).frames[i],
        popped(m2).frames[i],
        p,
    ) by {
        assert(frame_rel(m.frames[i], m2.frames[i], p));
    }
}

/// Away from the inserted byte, a machine and the one that runs the
/// program with a comment byte inserted take the same step: both fault or
/// neither does, both wait for input or neither does, and both hand back
/// the same action and stay related. (On the inserted byte the second only
/// steps over it: `law_inserted_byte_is_passed`.)
pub proof fn law_comment_byte_changes_nothing(m: MachineView, m2: MachineView, p: int, x: u8)
    requires
        machine_ok(m),
        m2.code.len() <= usize::MAX,
        machines_rel(m, m2, p, x),
        !(m2.frames.len() > 0 && top(m2).id == p),
    ensures
        faults(m2) == faults(m),
        awaits_input(m2) == awaits_input(m),
        !faults(m) ==> step_result(m2).1 == step_result(m).1 && machines_rel(
            step_result(m).0,
            step_result(m2).0,
            p,
            x,
        ),
{
    if m.frames.len() == 0 {
        return;
    }
    let n = m.frames.len();
    let f = top(m);
    let g = top(m2);
    assert(frame_rel(m.frames[n - 1], m2.frames[n - 1], p));
    assert(g.id == shifted(f.id as int, p));
    assert(m.frames.take(n as int) =~= m.frames);
    assert(frame_ok(f, banks(m.frames), m.code.len()));
    if f.id >= m.code.len() {
        lemma_rel_popped(m, m2, p, x);
        return;
    }
    lemma_with_byte_index(m.code, p, x, f.id as int);
    if f.in_comment {
        let f1 = advanced(FrameView { in_comment: false, ..f });
        let g1 = advanced(FrameView { in_comment: false, ..g });
        assert(frame_rel(f1, g1, p));
        lemma_rel_update(m, m2, p, x, f1, g1, None, m.cells);
        return;
    }
    lemma_command(m, m2, p, x);
}

/// The step on a command byte (not skipped) of two related machines.
proof fn lemma_command(m: MachineView, m2: MachineView, p: int, x: u8)
    requires
        machine_ok(m),
        m2.code.len() <= usize::MAX,
        machines_rel(m, m2, p, x),
        m.frames.len() > 0,
        top(m).id < m.code.len(),
        !top(m).in_comment,
        top(m2).id == shifted(top(m).id as int, p),
        frame_ok(top(m), banks(m.frames), m.code.len()),
        frame_rel(top(m), top(m2), p),
        m2.code[top(m2).id as int] == m.code[top(m).id as int],
    ensures
        faults(m2) == faults(m),
        awaits_input(m2) == awaits_input(m),
        !faults(m) ==> step_result(m2).1 == step_result(m).1 && machines_rel(
            step_result(m).0,
            step_result(m2).0,
            p,
            x,
        ),
{
    let f = top(m);
    let g = top(m2);
    let c = m.code[f.id as int];
    let v = cell(m);
    assert(cell(m2) == v);
    let b = m.code;
    if c == 40 || c == 123 || c == 91 {
        let close: u8 = if c == 40 {
            41
        } else if c == 123 {
            125
        } else {
            93
        };
        lemma_scope_end_insert(b, p, x, f.id + 1, g.id + 1, 1, false, c, close);
    }
    if faults(m) {
        return;
    }
    if c == 96 || c == 43 || c == 45 || c == 62 || c == 60 || c == 46 || c == 44 {
        lemma_simple(m, m2, p, x);
    } else if c == 91 || c == 93 {
        lemma_loop(m, m2, p, x);
    } else if c == 40 || c == 41 {
        lemma_paren(m, m2, p, x);
    } else if c == 123 {
        let j = closing(m, f.id as int, 123, 125)->0;
        crate::scan::lemma_scope_range(b, f.id + 1, 1, false, 123, 125);
        let f1 = FrameView { id: (j + 1) as usize, ..f };
        let g1 = FrameView { id: (shifted(j, p) + 1) as usize, ..g };
        let h = new_frame((f.id + 1) as usize, Task::Main((f.id + 1) as usize), f.main_regs, f.regs, false);
        let h2 = new_frame((g.id + 1) as usize, Task::Main((g.id + 1) as usize), g.main_regs, g.regs, false);
        assert(frame_rel(f1, g1, p));
        assert(frame_rel(h, h2, p));
        lemma_rel_update(m, m2, p, x, f1, g1, Some((h, h2)), m.cells);
    } else if c == 125 {
        lemma_rel_popped(m, m2, p, x);
    } else {
        let f1 = advanced(f);
        let g1 = advanced(g);
        assert(frame_rel(f1, g1, p));
        lemma_rel_update(m, m2, p, x, f1, g1, None, m.cells);
    }
}

/// The commands that change only the running frame and its cell.
proof fn lemma_simple(m: MachineView, m2: MachineView, p: int, x: u8)
    requires
        machine_ok(m),
        m2.code.len() <= usize::MAX,
        machines_rel(m, m2, p, x),
        m.frames.len() > 0,
        top(m).id < m.code.len(),
        !top(m).in_comment,
        top(m2).id == shifted(top(m).id as int, p),
        frame_ok(top(m), banks(m.frames), m.code.len()),
        frame_rel(top(m), top(m2), p),
        m2.code[top(m2).id as int] == m.code[top(m).id as int],
        !faults(m),
        ({
            let c = m.code[top(m).id as int];
            c == 96 || c == 43 || c == 45 || c == 62 || c == 60 || c == 46 || c == 44
        }),
    ensures
        step_result(m2).1 == step_result(m).1,
        machines_rel(step_result(m).0, step_result(m2).0, p, x),
{
    let f = top(m);
    let g = top(m2);
    let c = m.code[f.id as int];
    let v = cell(m);
    let pos = f.regs * 100 + f.current_reg;
    if c == 96 {
        let f1 = advanced(FrameView { in_comment: true, ..f });
        let g1 = advanced(FrameView { in_comment: true, ..g });
        assert(frame_rel(f1, g1, p));
        lemma_rel_update(m, m2, p, x, f1, g1, None, m.cells);
    } else if c == 43 || c == 45 {
        let nv: u32 = if c == 43 {
            if v < 255 {
                (v + 1) as u32
            } else {
                0
            }
        } else if v > 0 {
            (v - 1) as u32
        } else {
            255
        };
        assert(frame_rel(advanced(f), advanced(g), p));
        lemma_rel_update(m, m2, p, x, advanced(f), advanced(g), None, m.cells.update(pos, nv));
    } else if c == 62 || c == 60 {
        let r: usize = if c == 62 {
            if f.current_reg < 99 {
                (f.current_reg + 1) as usize
            } else {
                0
            }
        } else if f.current_reg > 0 {
            (f.current_reg - 1) as usize
        } else {
            99
        };
        let f1 = advanced(FrameView { current_reg: r, ..f });
        let g1 = advanced(FrameView { current_reg: r, ..g });
        assert(frame_rel(f1, g1, p));
        lemma_rel_update(m, m2, p, x, f1, g1, None, m.cells);
    } else if c == 46 {
        assert(frame_rel(advanced(f), advanced(g), p));
        lemma_rel_update(m, m2, p, x, advanced(f), advanced(g), None, m.cells);
    } else {
        if f.input.len() == 0 {
            assert(step_result(m2).0 == m2);
        } else {
            let f1 = advanced(FrameView { input: f.input.drop_last(), ..f });
            let g1 = advanced(FrameView { input: g.input.drop_last(), ..g });
            assert(frame_rel(f1, g1, p));
            lemma_rel_update(m, m2, p, x, f1, g1, None, m.cells.update(pos, f.input.last() as u32));
        }
    }
}

/// The steps on `[` and `]`.
proof fn lemma_loop(m: MachineView, m2: MachineView, p: int, x: u8)
    requires
        machine_ok(m),
        m2.code.len() <= usize::MAX,
        machines_rel(m, m2, p, x),
        m.frames.len() > 0,
        top(m).id < m.code.len(),
        !top(m).in_comment,
        top(m2).id == shifted(top(m).id as int, p),
        frame_ok(top(m), banks(m.frames), m.code.len()),
        frame_rel(top(m), top(m2), p),
        m2.code[top(m2).id as int] == m.code[top(m).id as int],
        !faults(m),
        m.code[top(m).id as int] == 91 || m.code[top(m).id as int] == 93,
    ensures
        step_result(m2).1 == step_result(m).1,
        machines_rel(step_result(m).0, step_result(m2).0, p, x),
{
    let f = top(m);
    let g = top(m2);
    let c = m.code[f.id as int];
    let v = cell(m);
    if c == 91 {
        lemma_scope_end_insert(m.code, p, x, f.id + 1, g.id + 1, 1, false, 91, 93);
        if v == 0 {
            crate::scan::lemma_scope_range(m.code, f.id + 1, 1, false, 91, 93);
            let j = closing(m, f.id as int, 91, 93)->0;
            let f1 = FrameView { id: (j + 1) as usize, ..f };
            let g1 = FrameView { id: (shifted(j, p) + 1) as usize, ..g };
            assert(frame_rel(f1, g1, p));
            lemma_rel_update(m, m2, p, x, f1, g1, None, m.cells);
        } else {
            let f1 = advanced(FrameView { loops: f.loops.push(f.id), ..f });
            let g1 = advanced(FrameView { loops: g.loops.push(g.id), ..g });
            assert forall|i: int| 0 <= i < f1.loops.len() implies #[trigger] g1.loops[i] == shifted(
                f1.loops[i] as int,
                p,
            ) by {
                if i < f.loops.len() {
                    assert(g.loops[i] == shifted(f.loops[i] as int, p));
                }
            }
            assert(frame_rel(f1, g1, p));
            lemma_rel_update(m, m2, p, x, f1, g1, None, m.cells);
        }
    } else {
        let k = f.loops.len() - 1;
        assert(g.loops[k] == shifted(f.loops[k] as int, p));
        assert(f.loops[k] < m.code.len());
        if v > 0 {
            let f1 = FrameView { id: (f.loops.last() + 1) as usize, ..f };
            let g1 = FrameView { id: (g.loops.last() + 1) as usize, ..g };
            assert(frame_rel(f1, g1, p));
            lemma_rel_update(m, m2, p, x, f1, g1, None, m.cells);
        } else {
            let f1 = advanced(FrameView { loops: f.loops.drop_last(), ..f });
            let g1 = advanced(FrameView { loops: g.loops.drop_last(), ..g });
            assert forall|i: int| 0 <= i < f1.loops.len() implies #[trigger] g1.loops[i] == shifted(
                f1.loops[i] as int,
                p,
            ) by {
                assert(g.loops[i] == shifted(f.loops[i] as int, p));
            }
            assert(frame_rel(f1, g1, p));
            lemma_rel_update(m, m2, p, x, f1, g1, None, m.cells);
        }
    }
}

/// The steps on `(` and `)`.
proof fn lemma_paren(m: MachineView, m2: MachineView, p: int, x: u8)
    requires
        machine_ok(m),
        m2.code.len() <= usize::MAX,
        machines_rel(m, m2, p, x),
        m.frames.len() > 0,
        top(m).id < m.code.len(),
        !top(m).in_comment,
        top(m2).id == shifted(top(m).id as int, p),
        frame_ok(top(m), banks(m.frames), m.code.len()),
        frame_rel(top(m), top(m2), p),
        m2.code[top(m2).id as int] == m.code[top(m).id as int],
        !faults(m),
        m.code[top(m).id as int] == 40 || m.code[top(m).id as int] == 41,
    ensures
        step_result(m2).1 == step_result(m).1,
        machines_rel(step_result(m).0, step_result(m2).0, p, x),
{
    let f = top(m);
    let g = top(m2);
    let c = m.code[f.id as int];
    let v = cell(m);
    if c == 40 {
        lemma_scope_end_insert(m.code, p, x, f.id + 1, g.id + 1, 1, false, 40, 41);
        crate::scan::lemma_scope_range(m.code, f.id + 1, 1, false, 40, 41);
        let j = closing(m, f.id as int, 40, 41)->0;
        if !f.funcs.contains_key(v) {
            let f1 = FrameView { id: (j + 1) as usize, funcs: f.funcs.insert(v, f.id), ..f };
            let g1 = FrameView { id: (shifted(j, p) + 1) as usize, funcs: g.funcs.insert(v, g.id), ..g };
            assert(g1.funcs.dom() =~= f1.funcs.dom());
            assert(frame_rel(f1, g1, p));
            lemma_rel_update(m, m2, p, x, f1, g1, None, m.cells);
        } else {
            let def = f.funcs[v];
            assert(g.funcs.contains_key(v));
            assert(g.funcs[v] == shifted(def as int, p));
            lemma_owned_rel(m.frames, m2.frames, p);
            let f1 = FrameView { id: (j + 1) as usize, ..f };
            let g1 = FrameView { id: (shifted(j, p) + 1) as usize, ..g };
            let h = new_frame(
                (f.id + 1) as usize,
                Task::Function((f.id + 1) as usize, def),
                banks(m.frames) as usize,
                f.main_regs,
                true,
            );
            let h2 = new_frame(
                (g.id + 1) as usize,
                Task::Function((g.id + 1) as usize, g.funcs[v]),
                banks(m2.frames) as usize,
                g.main_regs,
                true,
            );
            assert(frame_rel(f1, g1, p));
            assert(frame_rel(h, h2, p));
            lemma_rel_update(m, m2, p, x, f1, g1, Some((h, h2)), m.cells + Seq::new(100, |i: int| 0u32));
        }
    } else {
        match f.task {
            Task::Function(first, def) => {
                let (first2, def2) = match g.task {
                    Task::Function(a, d) => (a, d),
                    Task::Main(_) => (0usize, 0usize),
                };
                assert(g.task == Task::Function(first2, def2));
                if f.id >= first {
                    assert(g.id >= first2);
                    let f1 = FrameView { id: (def + 1) as usize, ..f };
                    let g1 = FrameView { id: (def2 + 1) as usize, ..g };
                    assert(frame_rel(f1, g1, p));
                    lemma_rel_update(m, m2, p, x, f1, g1, None, m.cells);
                } else {
                    assert(g.id < first2);
                    lemma_rel_popped(m, m2, p, x);
                }
            },
            Task::Main(_) => {
                assert(frame_rel(advanced(f), advanced(g), p));
                lemma_rel_update(m, m2, p, x, advanced(f), advanced(g), None, m.cells);
            },
        }
    }
}

/// A line of input handed to both machines, away from the inserted byte,
/// keeps them related.
pub proof fn law_comment_byte_input(m: MachineView, m2: MachineView, p: int, x: u8, line: Seq<char>)
    requires
        machine_ok(m),
        m2.code.len() <= usize::MAX,
        machines_rel(m, m2, p, x),
        !(m2.frames.len() > 0 && top(m2).id == p),
    ensures
        machines_rel(fed(m, line), fed(m2, line), p, x),
{
    law_comment_byte_changes_nothing(m, m2, p, x);
    let pl = pending_input(line);
    if awaits_input(m) && pl.len() > 0 {
        let n = m.frames.len();
        let f = top(m);
        let g = top(m2);
        assert(frame_rel(m.frames[n - 1], m2.frames[n - 1], p));
        assert(g.id == shifted(f.id as int, p));
        assert(m.frames.take(n as int) =~= m.frames);
        assert(frame_ok(f, banks(m.frames), m.code.len()));
        let f1 = advanced(FrameView { input: pl.drop_last(), ..f });
        let g1 = advanced(FrameView { input: pl.drop_last(), ..g });
        assert(frame_rel(f1, g1, p));
        lemma_rel_update(m, m2, p, x, f1, g1, None, m.cells.update(f.regs * 100 + f.current_reg, pl.last() as u32));
    }
}

} // verus!
