use vstd::prelude::*;

use crate::bridge::char_from_code;
use crate::error::{bracket_errors, Error};
use crate::scan::{find_scope_end, lemma_scope_range, scope_end};
use crate::text::{chars_of, is_char_code};

verus! {

broadcast use vstd::std_specs::hash::group_hash_axioms;

/// What a running piece of code is: the main program (or a `{ }` scope)
/// started at an index, or a function call whose own body starts at the
/// first index and whose definition starts at the second.
#[derive(Clone, Copy, Debug, PartialEq, Eq, Structural)]
pub enum Task {
    Function(usize, usize),
    Main(usize),
}

/// What the caller of `Machine::step` has to do after the step.
#[derive(Clone, Copy, Debug, PartialEq, Eq, Structural)]
pub enum Action {
    /// Nothing: take the next step.
    Continue,
    /// Print this character.
    Output(char),
    /// A `)` closed no function: print the line `Error?`.
    StrayClose,
    /// Read a line of input and hand it to `Machine::feed_line`.
    NeedInput,
    /// The program has ended.
    Finished,
}

/// One running piece of code (the main program, a function call or a
/// `{ }` scope) and its local state.
pub struct Frame {
    /// Index of the next byte to run.
    pub id: usize,
    /// The cell under the pointer, in `0..100`.
    pub current_reg: usize,
    pub task: Task,
    /// Indices of the `[` of the loops entered and not yet left.
    pub loops: Vec<usize>,
    /// Functions defined here: index of the defining `(` by cell value.
    pub funcs: std::collections::HashMap<u32, usize>,
    /// Input not yet consumed, last character first.
    pub input: Vec<char>,
    /// The previous byte was a backtick: skip this one.
    pub in_comment: bool,
    /// The bank of 100 cells that this code works on.
    pub regs: usize,
    /// The bank that a `{ }` scope inside this code works on.
    pub main_regs: usize,
    /// Whether `regs` was made for this frame (a function call) and goes
    /// away with it.
    pub owns_regs: bool,
}

pub struct FrameView {
    pub id: usize,
    pub current_reg: usize,
    pub task: Task,
    pub loops: Seq<usize>,
    pub funcs: Map<u32, usize>,
    pub input: Seq<char>,
    pub in_comment: bool,
    pub regs: usize,
    pub main_regs: usize,
    pub owns_regs: bool,
}

impl View for Frame {
    type V = FrameView;

    open spec fn view(&self) -> FrameView {
        FrameView {
            id: self.id,
            current_reg: self.current_reg,
            task: self.task,
            loops: self.loops@,
            funcs: self.funcs@,
            input: self.input@,
            in_comment: self.in_comment,
            regs: self.regs,
            main_regs: self.main_regs,
            owns_regs: self.owns_regs,
        }
    }
}

/// A program being run: its bytes, the stack of running frames (the last
/// one runs) and the banks of cells, 100 cells per bank, one after the other.
pub struct Machine {
    code: Vec<u8>,
    frames: Vec<Frame>,
    cells: Vec<u32>,
}

pub struct MachineView {
    pub code: Seq<u8>,
    pub frames: Seq<FrameView>,
    pub cells: Seq<u32>,
}

impl View for Machine {
    type V = MachineView;

    closed spec fn view(&self) -> MachineView {
        MachineView {
            code: self.code@,
            frames: self.frames@.map_values(|f: Frame| f@),
            cells: self.cells@,
        }
    }
}

/// The number of frames that made their own bank of cells.
pub open spec fn owned_banks(frames: Seq<FrameView>) -> nat
    decreases frames.len(),
{
    if frames.len() == 0 {
        0
    } else {
        owned_banks(frames.drop_last()) + if frames.last().owns_regs {
            1nat
        } else {
            0nat
        }
    }
}

/// The number of banks that exist while `frames` run: the two of the main
/// program, and one per function call.
pub open spec fn banks(frames: Seq<FrameView>) -> nat {
    2 + owned_banks(frames)
}

/// A frame that may use the banks below `b`, in a program of `n` bytes.
pub open spec fn frame_ok(f: FrameView, b: nat, n: nat) -> bool {
    &&& f.id <= n
    &&& f.current_reg < 100
    &&& f.regs < b
    &&& f.main_regs < b
    &&& f.owns_regs ==> f.regs == b - 1
    &&& forall|i: int| 0 <= i < f.loops.len() ==> #[trigger] f.loops[i] < n
    &&& forall|k: u32| #[trigger] f.funcs.contains_key(k) ==> f.funcs[k] < n
    &&& match f.task {
        Task::Function(_, def) => def < n,
        Task::Main(_) => true,
    }
}

/// The invariant of a machine: 100 cells per bank, and each frame uses only
/// the banks that exist below it (its own bank last).
pub open spec fn machine_ok(m: MachineView) -> bool {
    &&& m.code.len() <= usize::MAX
    &&& m.cells.len() <= usize::MAX
    &&& m.cells.len() == 100 * banks(m.frames)
    &&& forall|i: int|
        0 <= i < m.frames.len() ==> frame_ok(
            #[trigger] m.frames[i],
            banks(m.frames.take(i + 1)),
            m.code.len(),
        )
}

/// The frame that runs.
pub open spec fn top(m: MachineView) -> FrameView {
    m.frames[m.frames.len() - 1]
}

/// Where the cell under a frame's pointer lies.
pub open spec fn cell_pos(f: FrameView) -> int {
    f.regs * 100 + f.current_reg
}

/// The value of the cell under the pointer of the running frame.
pub open spec fn cell(m: MachineView) -> u32 {
    m.cells[cell_pos(top(m))]
}

/// `m` with the running frame replaced by `f`.
pub open spec fn with_top(m: MachineView, f: FrameView) -> MachineView {
    MachineView { code: m.code, frames: m.frames.update(m.frames.len() - 1, f), cells: m.cells }
}

/// `m` with the running frame replaced by `f` and the cell under the
/// pointer set to `v`.
pub open spec fn with_top_cell(m: MachineView, f: FrameView, v: u32) -> MachineView {
    MachineView {
        code: m.code,
        frames: m.frames.update(m.frames.len() - 1, f),
        cells: m.cells.update(cell_pos(top(m)), v),
    }
}

/// A frame moved on to the next byte.
pub open spec fn advanced(f: FrameView) -> FrameView {
    FrameView { id: (f.id + 1) as usize, ..f }
}

/// `m` after the running frame returns: it goes, and its own bank with it.
pub open spec fn popped(m: MachineView) -> MachineView {
    MachineView {
        code: m.code,
        frames: m.frames.drop_last(),
        cells: if top(m).owns_regs {
            m.cells.take(m.cells.len() - 100)
        } else {
            m.cells
        },
    }
}

/// The bracket that closes the one at `id`, scanning the rest of the program
/// (a byte after a backtick counts for nothing).
pub open spec fn closing(m: MachineView, id: int, open: u8, close: u8) -> Option<int> {
    scope_end(m.code, id + 1, 1, false, open, close)
}

/// A fresh frame.
pub open spec fn new_frame(id: usize, task: Task, regs: usize, main_regs: usize, owns: bool) -> FrameView {
    FrameView {
        id,
        current_reg: 0,
        task,
        loops: Seq::empty(),
        funcs: Map::empty(),
        input: Seq::empty(),
        in_comment: false,
        regs,
        main_regs,
        owns_regs: owns,
    }
}

/// Whether the running frame stops on a `,` for a line of input.
pub open spec fn awaits_input(m: MachineView) -> bool {
    &&& m.frames.len() > 0
    &&& top(m).id < m.code.len()
    &&& !top(m).in_comment
    &&& m.code[top(m).id as int] == 44
    &&& top(m).input.len() == 0
}

/// Whether the next step cannot be taken (the program must stop with a
/// panic there): on printing a cell that holds no character code, on a `]`
/// with no loop entered, on a `(` or `{` with no closing bracket after it,
/// or on a `[` that must skip its loop and has no `]` after it.
pub open spec fn faults(m: MachineView) -> bool {
    &&& m.frames.len() > 0
    &&& top(m).id < m.code.len()
    &&& !top(m).in_comment
    &&& {
        let f = top(m);
        let c = m.code[f.id as int];
        ||| c == 46 && !is_char_code(cell(m))
        ||| c == 93 && f.loops.len() == 0
        ||| c == 40 && closing(m, f.id as int, 40, 41) is None
        ||| c == 123 && closing(m, f.id as int, 123, 125) is None
        ||| c == 91 && cell(m) == 0 && closing(m, f.id as int, 91, 93) is None
    }
}

/// The step on byte `c` at the running frame's index (not skipped as a
/// comment).
pub open spec fn command_step(m: MachineView, c: u8) -> (MachineView, Action) {
    let f = top(m);
    let v = cell(m);
    if c == 96 {
        (with_top(m, advanced(FrameView { in_comment: true, ..f })), Action::Continue)
    } else if c == 43 {
        (with_top_cell(m, advanced(f), if v < 255 { (v + 1) as u32 } else { 0 }), Action::Continue)
    } else if c == 45 {
        (with_top_cell(m, advanced(f), if v > 0 { (v - 1) as u32 } else { 255 }), Action::Continue)
    } else if c == 62 {
        (with_top(m, advanced(FrameView { current_reg: if f.current_reg < 99 { (f.current_reg + 1) as usize } else { 0 }, ..f })), Action::Continue)
    } else if c == 60 {
        (with_top(m, advanced(FrameView { current_reg: if f.current_reg > 0 { (f.current_reg - 1) as usize } else { 99 }, ..f })), Action::Continue)
    } else if c == 46 {
        (with_top(m, advanced(f)), Action::Output(v as char))
    } else if c == 44 {
        if f.input.len() == 0 {
            (m, Action::NeedInput)
        } else {
            (with_top_cell(m, advanced(FrameView { input: f.input.drop_last(), ..f }), f.input.last() as u32), Action::Continue)
        }
    } else if c == 91 {
        if v == 0 {
            let j = closing(m, f.id as int, 91, 93)->0;
            (with_top(m, FrameView { id: (j + 1) as usize, ..f }), Action::Continue)
        } else {
            (with_top(m, advanced(FrameView { loops: f.loops.push(f.id), ..f })), Action::Continue)
        }
    } else if c == 93 {
        if v > 0 {
            (with_top(m, FrameView { id: (f.loops.last() + 1) as usize, ..f }), Action::Continue)
        } else {
            (with_top(m, advanced(FrameView { loops: f.loops.drop_last(), ..f })), Action::Continue)
        }
    } else if c == 40 {
        let j = closing(m, f.id as int, 40, 41)->0;
        if !f.funcs.contains_key(v) {
            (with_top(m, FrameView { id: (j + 1) as usize, funcs: f.funcs.insert(v, f.id), ..f }), Action::Continue)
        } else {
            let caller = FrameView { id: (j + 1) as usize, ..f };
            let callee = new_frame((f.id + 1) as usize, Task::Function((f.id + 1) as usize, f.funcs[v]), banks(m.frames) as usize, f.main_regs, true);
            (MachineView {
                code: m.code,
                frames: m.frames.update(m.frames.len() - 1, caller).push(callee),
                cells: m.cells + Seq::new(100, |i: int| 0u32),
            }, Action::Continue)
        }
    } else if c == 41 {
        match f.task {
            Task::Function(first, def) => if f.id >= first {
                (with_top(m, FrameView { id: (def + 1) as usize, ..f }), Action::Continue)
            } else {
                (popped(m), Action::Continue)
            },
            Task::Main(_) => (with_top(m, advanced(f)), Action::StrayClose),
        }
    } else if c == 123 {
        let j = closing(m, f.id as int, 123, 125)->0;
        let caller = FrameView { id: (j + 1) as usize, ..f };
        let scope = new_frame((f.id + 1) as usize, Task::Main((f.id + 1) as usize), f.main_regs, f.regs, false);
        (MachineView {
            code: m.code,
            frames: m.frames.update(m.frames.len() - 1, caller).push(scope),
            cells: m.cells,
        }, Action::Continue)
    } else if c == 125 {
        (popped(m), Action::Continue)
    } else {
        (with_top(m, advanced(f)), Action::Continue)
    }
}

/// One step of the interpreter: the machine after it, and what the caller
/// has to do.
pub open spec fn step_result(m: MachineView) -> (MachineView, Action) {
    if m.frames.len() == 0 {
        (m, Action::Finished)
    } else if top(m).id >= m.code.len() {
        (popped(m), Action::Continue)
    } else if top(m).in_comment {
        (with_top(m, advanced(FrameView { in_comment: false, ..top(m) })), Action::Continue)
    } else {
        command_step(m, m.code[top(m).id as int])
    }
}

/// The input of a line, last character first, without its newlines.
pub open spec fn pending_input(line: Seq<char>) -> Seq<char>
    decreases line.len(),
{
    if line.len() == 0 {
        Seq::empty()
    } else if line[0] == '\n' {
        pending_input(line.skip(1))
    } else {
        pending_input(line.skip(1)).push(line[0])
    }
}

/// The machine after a line of input arrives for the `,` it waits on: the
/// first character (if any) goes into the cell and the machine moves on;
/// an empty line leaves it waiting.
pub open spec fn fed(m: MachineView, line: Seq<char>) -> MachineView {
    let p = pending_input(line);
    let f = top(m);
    if !awaits_input(m) {
        m
    } else if p.len() == 0 {
        m
    } else {
        with_top_cell(m, advanced(FrameView { input: p.drop_last(), ..f }), p.last() as u32)
    }
}

/// The machine at the start of a program of bytes `code`: the main program
/// at index 0 on bank 0, whose `{ }` scopes use bank 1; all cells zero.
pub open spec fn started(code: Seq<u8>) -> MachineView {
    MachineView {
        code,
        frames: seq![new_frame(0, Task::Main(0), 0, 1, false)],
        cells: Seq::new(200, |i: int| 0u32),
    }
}

proof fn lemma_owned_push(s: Seq<FrameView>, x: FrameView)
    ensures
        owned_banks(s.push(x)) == owned_banks(s) + if x.owns_regs {
            1nat
        } else {
            0nat
        },
{
    assert(s.push(x).drop_last() =~= s);
}

proof fn lemma_owned_update_last(s: Seq<FrameView>, x: FrameView)
    requires
        s.len() > 0,
        x.owns_regs == s.last().owns_regs,
    ensures
        owned_banks(s.update(s.len() - 1, x)) == owned_banks(s),
{
    assert(s.update(s.len() - 1, x).drop_last() =~= s.drop_last());
}

proof fn lemma_with_top_ok(m: MachineView, f: FrameView, cells: Seq<u32>)
    requires
        machine_ok(m),
        m.frames.len() > 0,
        cells.len() == m.cells.len(),
        f.owns_regs == top(m).owns_regs,
        f.regs == top(m).regs,
        f.main_regs == top(m).main_regs,
        frame_ok(f, banks(m.frames), m.code.len()),
    ensures
        machine_ok(MachineView { code: m.code, frames: m.frames.update(m.frames.len() - 1, f), cells }),
{
    let n = m.frames.len();
    let fr = m.frames.update(n - 1, f);
    lemma_owned_update_last(m.frames, f);
    assert forall|i: int| 0 <= i < fr.len() implies frame_ok(
        #[trigger] fr[i],
        banks(fr.take(i + 1)),
        m.code.len(),
    ) by {
        if i < n - 1 {
            assert(fr.take(i + 1) =~= m.frames.take(i + 1));
        } else {
            assert(fr.take(i + 1) =~= fr);
            assert(m.frames.take(i + 1) =~= m.frames);
        }
    }
}

proof fn lemma_popped_ok(m: MachineView)
    requires
        machine_ok(m),
        m.frames.len() > 0,
    ensures
        machine_ok(popped(m)),
{
    let n = m.frames.len();
    let fr = m.frames.drop_last();
    assert(m.frames.take(n as int) =~= m.frames);
    assert forall|i: int| 0 <= i < fr.len() implies frame_ok(
        #[trigger] fr[i],
        banks(fr.take(i + 1)),
        m.code.len(),
    ) by {
        assert(fr.take(i + 1) =~= m.frames.take(i + 1));
        assert(fr[i] == m.frames[i]);
    }
}

/// A pushed frame that uses only banks that exist keeps a machine well
/// formed.
proof fn lemma_push_ok(m: MachineView, caller: FrameView, callee: FrameView, cells: Seq<u32>)
    requires
        machine_ok(m),
        m.frames.len() > 0,
        caller.owns_regs == top(m).owns_regs,
        caller.regs == top(m).regs,
        caller.main_regs == top(m).main_regs,
        frame_ok(caller, banks(m.frames), m.code.len()),
        frame_ok(callee, banks(m.frames) + if callee.owns_regs { 1nat } else { 0nat }, m.code.len()),
        cells.len() == m.cells.len() + if callee.owns_regs { 100nat } else { 0nat },
        cells.len() <= usize::MAX,
    ensures
        machine_ok(MachineView {
            code: m.code,
            frames: m.frames.update(m.frames.len() - 1, caller).push(callee),
            cells,
        }),
{
    let n = m.frames.len();
    let mid = MachineView { code: m.code, frames: m.frames.update(n - 1, caller), cells: m.cells };
    lemma_with_top_ok(m, caller, m.cells);
    lemma_owned_update_last(m.frames, caller);
    let fr = mid.frames.push(callee);
    lemma_owned_push(mid.frames, callee);
    assert(fr.take(n + 1 as int) =~= fr);
    assert forall|i: int| 0 <= i < fr.len() implies frame_ok(
        #[trigger] fr[i],
        banks(fr.take(i + 1)),
        m.code.len(),
    ) by {
        if i < n {
            assert(fr.take(i + 1) =~= mid.frames.take(i + 1));
            assert(fr[i] == mid.frames[i]);
        }
    }
}

/// Every step from a well-formed machine that does not fault gives a
/// well-formed machine (as long as its cells can be counted in a `usize`).
pub proof fn law_step_keeps_invariant(m: MachineView)
    requires
        machine_ok(m),
        !faults(m),
        step_result(m).0.cells.len() <= usize::MAX,
    ensures
        machine_ok(step_result(m).0),
{
    if m.frames.len() == 0 {
        return;
    }
    let n = m.frames.len();
    let f = top(m);
    assert(m.frames.take(n as int) =~= m.frames);
    assert(frame_ok(f, banks(m.frames), m.code.len()));
    if f.id >= m.code.len() {
        lemma_popped_ok(m);
        return;
    }
    if f.in_comment {
        lemma_with_top_ok(m, advanced(FrameView { in_comment: false, ..f }), m.cells);
        return;
    }
    let c = m.code[f.id as int];
    let v = cell(m);
    let res = step_result(m).0;
    if c == 40 {
        let j = closing(m, f.id as int, 40, 41)->0;
        lemma_scope_range(m.code, f.id + 1, 1, false, 40, 41);
        if !f.funcs.contains_key(v) {
            let g = FrameView { id: (j + 1) as usize, funcs: f.funcs.insert(v, f.id), ..f };
            lemma_with_top_ok(m, g, m.cells);
        } else {
            let caller = FrameView { id: (j + 1) as usize, ..f };
            let callee = new_frame(
                (f.id + 1) as usize,
                Task::Function((f.id + 1) as usize, f.funcs[v]),
                banks(m.frames) as usize,
                f.main_regs,
                true,
            );
            lemma_push_ok(m, caller, callee, m.cells + Seq::new(100, |i: int| 0u32));
        }
    } else if c == 123 {
        lemma_scope_range(m.code, f.id + 1, 1, false, 123, 125);
        let j = closing(m, f.id as int, 123, 125)->0;
        let caller = FrameView { id: (j + 1) as usize, ..f };
        let scope = new_frame((f.id + 1) as usize, Task::Main((f.id + 1) as usize), f.main_regs, f.regs, false);
        lemma_push_ok(m, caller, scope, m.cells);
    } else if c == 125 {
        lemma_popped_ok(m);
    } else if c == 41 {
        match f.task {
            Task::Function(first, def) => if f.id >= first {
                lemma_with_top_ok(m, FrameView { id: (def + 1) as usize, ..f }, m.cells);
            } else {
                lemma_popped_ok(m);
            },
            Task::Main(_) => {
                lemma_with_top_ok(m, advanced(f), m.cells);
            },
        }
    } else if c == 91 {
        if v == 0 {
            lemma_scope_range(m.code, f.id + 1, 1, false, 91, 93);
            let j = closing(m, f.id as int, 91, 93)->0;
            lemma_with_top_ok(m, FrameView { id: (j + 1) as usize, ..f }, m.cells);
        } else {
            let g = advanced(FrameView { loops: f.loops.push(f.id), ..f });
            assert forall|a: int| 0 <= a < g.loops.len() implies #[trigger] g.loops[a] < m.code.len() by {
                if a < f.loops.len() {
                    assert(g.loops[a] == f.loops[a]);
                }
            }
            lemma_with_top_ok(m, g, m.cells);
        }
    } else if c == 93 {
        if v > 0 {
            assert(f.loops[f.loops.len() - 1] < m.code.len());
            lemma_with_top_ok(m, FrameView { id: (f.loops.last() + 1) as usize, ..f }, m.cells);
        } else {
            let g = advanced(FrameView { loops: f.loops.drop_last(), ..f });
            assert forall|a: int| 0 <= a < g.loops.len() implies #[trigger] g.loops[a] < m.code.len() by {
                assert(g.loops[a] == f.loops[a]);
            }
            lemma_with_top_ok(m, g, m.cells);
        }
    } else if c == 44 {
        if f.input.len() > 0 {
            lemma_with_top_ok(m, advanced(FrameView { input: f.input.drop_last(), ..f }), m.cells.update(cell_pos(f), f.input.last() as u32));
        }
    } else if c == 96 {
        lemma_with_top_ok(m, advanced(FrameView { in_comment: true, ..f }), m.cells);
    } else if c == 43 || c == 45 {
        lemma_with_top_ok(m, advanced(f), res.cells);
    } else if c == 62 {
        lemma_with_top_ok(m, advanced(FrameView { current_reg: if f.current_reg < 99 { (f.current_reg + 1) as usize } else { 0 }, ..f }), m.cells);
    } else if c == 60 {
        lemma_with_top_ok(m, advanced(FrameView { current_reg: if f.current_reg > 0 { (f.current_reg - 1) as usize } else { 99 }, ..f }), m.cells);
    } else {
        lemma_with_top_ok(m, advanced(f), m.cells);
    }
}


impl Machine {
    /// The frames of the view are the views of the frames, one by one.
    proof fn lemma_view_frames(&self)
        ensures
            self@.frames.len() == self.frames@.len(),
            forall|i: int| 0 <= i < self.frames@.len() ==> #[trigger] self@.frames[i] == self.frames@[i]@,
    {
    }

    /// Whether the next step cannot be taken: the program must stop with a
    /// panic there.
    pub fn faults(&self) -> (r: bool)
        requires
            machine_ok(self@),
        ensures
            r == faults(self@),
    {
        proof {
            self.lemma_view_frames();
        }
        let n = self.frames.len();
        if n == 0 {
            return false;
        }
        let f = &self.frames[n - 1];
        assert(f@ == top(self@));
        if f.id >= self.code.len() || f.in_comment {
            return false;
        }
        let c = self.code[f.id];
        proof {
            assert(self@.frames.take(n as int) =~= self@.frames);
            assert(frame_ok(f@, banks(self@.frames), self@.code.len()));
        }
        let pos = f.regs * 100 + f.current_reg;
        let v = self.cells[pos];
        if c == 46 {
            match char_from_code(v) {
                Some(_) => false,
                None => true,
            }
        } else if c == 93 {
            f.loops.len() == 0
        } else if c == 40 || c == 123 {
            let close: u8 = if c == 40 {
                41
            } else {
                125
            };
            let found = find_scope_end(self.code.as_slice(), f.id + 1, c, close);
            found.is_none()
        } else if c == 91 {
            v == 0 && find_scope_end(self.code.as_slice(), f.id + 1, 91, 93).is_none()
        } else {
            false
        }
    }

    /// Whether the program has ended.
    pub fn is_finished(&self) -> (r: bool)
        ensures
            r == (self@.frames.len() == 0),
    {
        self.frames.len() == 0
    }

    /// This machine is `m` with its running frame taken off.
    closed spec fn holds_rest(&self, m: MachineView) -> bool {
        &&& self.code@ == m.code
        &&& self.cells@ == m.cells
        &&& m.frames.len() > 0
        &&& self.frames@.len() == m.frames.len() - 1
        &&& forall|i: int| 0 <= i < m.frames.len() - 1 ==> #[trigger] self.frames@[i]@ == m.frames[i]
    }

    /// The conditions under which a command handler runs: the running frame
    /// `f` of `m` was taken off and stands at a byte that is not a comment.
    closed spec fn at_command(&self, f: FrameView, m: MachineView) -> bool {
        &&& machine_ok(m)
        &&& !faults(m)
        &&& self.holds_rest(m)
        &&& f == top(m)
        &&& f.id < m.code.len()
        &&& !f.in_comment
        &&& frame_ok(f, banks(m.frames), m.code.len())
    }

    /// Puts back the running frame `f`, now changed, as the step of `m`
    /// (which may also have changed the cells) requires.
    fn finish_keep(&mut self, f: Frame, Ghost(m): Ghost<MachineView>, action: Action) -> (a: Action)
        requires
            machine_ok(m),
            !faults(m),
            m.frames.len() > 0,
            old(self).code@ == m.code,
            old(self).frames@.len() == m.frames.len() - 1,
            forall|i: int| 0 <= i < m.frames.len() - 1 ==> #[trigger] old(self).frames@[i]@ == m.frames[i],
            step_result(m) == (MachineView {
                code: m.code,
                frames: m.frames.update(m.frames.len() - 1, f@),
                cells: old(self).cells@,
            }, action),
        ensures
            machine_ok(final(self)@),
            (final(self)@, a) == step_result(m),
    {
        let ghost fv = f@;
        self.frames.push(f);
        let _ = self.cells.len();
        proof {
            self.lemma_view_frames();
            assert(self@.frames =~= m.frames.update(m.frames.len() - 1, fv));
            law_step_keeps_invariant(m);
        }
        action
    }

    /// Ends the running frame of `m` (already taken off): its bank goes too.
    fn finish_pop(&mut self, owns: bool, Ghost(m): Ghost<MachineView>) -> (a: Action)
        requires
            machine_ok(m),
            !faults(m),
            old(self).holds_rest(m),
            owns == top(m).owns_regs,
            step_result(m) == (popped(m), Action::Continue),
        ensures
            machine_ok(final(self)@),
            (final(self)@, a) == step_result(m),
    {
        if owns {
            let len = self.cells.len();
            self.cells.truncate(len - 100);
        }
        proof {
            self.lemma_view_frames();
            assert(self@.frames =~= m.frames.drop_last());
            assert(self@.cells =~= popped(m).cells);
            law_step_keeps_invariant(m);
        }
        Action::Continue
    }

    /// Puts back the running frame `f` and starts `g` on top of it.
    fn push_pair(&mut self, f: Frame, g: Frame, Ghost(m): Ghost<MachineView>) -> (a: Action)
        requires
            machine_ok(m),
            !faults(m),
            m.frames.len() > 0,
            old(self).code@ == m.code,
            old(self).frames@.len() == m.frames.len() - 1,
            forall|i: int| 0 <= i < m.frames.len() - 1 ==> #[trigger] old(self).frames@[i]@ == m.frames[i],
            step_result(m) == (MachineView {
                code: m.code,
                frames: m.frames.update(m.frames.len() - 1, f@).push(g@),
                cells: old(self).cells@,
            }, Action::Continue),
        ensures
            machine_ok(final(self)@),
            (final(self)@, a) == step_result(m),
    {
        let ghost fv = f@;
        let ghost gv = g@;
        self.frames.push(f);
        self.frames.push(g);
        let _ = self.cells.len();
        proof {
            self.lemma_view_frames();
            assert(self@.frames =~= m.frames.update(m.frames.len() - 1, fv).push(gv));
            law_step_keeps_invariant(m);
        }
        Action::Continue
    }

    /// The value of the cell under the pointer of `f`.
    fn cell_of(&self, f: &Frame, Ghost(m): Ghost<MachineView>) -> (r: (usize, u32))
        requires
            self.at_command(f@, m),
        ensures
            r.0 == cell_pos(top(m)),
            r.1 == cell(m),
    {
        let pos = f.regs * 100 + f.current_reg;
        (pos, self.cells[pos])
    }

    /// A `(`: defines the function of the cell's value, or calls it.
    fn run_open_paren(&mut self, f: Frame, Ghost(m): Ghost<MachineView>) -> (a: Action)
        requires
            old(self).at_command(f@, m),
            m.code[f.id as int] == 40,
        ensures
            machine_ok(final(self)@),
            (final(self)@, a) == step_result(m),
    {
        let mut f = f;
        let (pos, v) = self.cell_of(&f, Ghost(m));
        let found = find_scope_end(self.code.as_slice(), f.id + 1, 40, 41);
        proof {
            lemma_scope_range(m.code, f.id + 1, 1, false, 40, 41);
        }
        let j = match found {
            Some(j) => j,
            None => {
                proof {
                    assert(false);
                }
                f.id
            },
        };
        let known: Option<usize> = match f.funcs.get(&v) {
            Some(d) => Some(*d),
            None => None,
        };
        match known {
            None => {
                f.funcs.insert(v, f.id);
                f.id = j + 1;
                assert(step_result(m) == (with_top(m, f@), Action::Continue));
                self.finish_keep(f, Ghost(m), Action::Continue)
            },
            Some(def) => {
                let bank = self.cells.len() / 100;
                assert(bank == banks(m.frames));
                let start = f.id + 1;
                let mut k: usize = 0;
                let ghost rest = self.frames@;
                while k < 100
                    invariant
                        k <= 100,
                        self.cells@ == m.cells + Seq::new(k as nat, |i: int| 0u32),
                        self.frames@ == rest,
                        self.code@ == m.code,
                    decreases 100 - k,
                {
                    self.cells.push(0);
                    assert(m.cells + Seq::new((k + 1) as nat, |i: int| 0u32) =~= (m.cells + Seq::new(
                        k as nat,
                        |i: int| 0u32,
                    )).push(0));
                    k += 1;
                }
                let g = Frame {
                    id: start,
                    current_reg: 0,
                    task: Task::Function(start, def),
                    loops: Vec::new(),
                    funcs: std::collections::HashMap::new(),
                    input: Vec::new(),
                    in_comment: false,
                    regs: bank,
                    main_regs: f.main_regs,
                    owns_regs: true,
                };
                let ghost t = f@;
                f.id = j + 1;
                assert(g@ == new_frame(start, Task::Function(start, def), bank, t.main_regs, true));
                assert(step_result(m) == (MachineView {
                    code: m.code,
                    frames: m.frames.update(m.frames.len() - 1, f@).push(g@),
                    cells: self.cells@,
                }, Action::Continue));
                self.push_pair(f, g, Ghost(m))
            },
        }
    }

    /// A `)`: the end of a function's body (go on with its definition, or
    /// return), or a stray one in the main program.
    fn run_close_paren(&mut self, f: Frame, Ghost(m): Ghost<MachineView>) -> (a: Action)
        requires
            old(self).at_command(f@, m),
            m.code[f.id as int] == 41,
        ensures
            machine_ok(final(self)@),
            (final(self)@, a) == step_result(m),
    {
        let mut f = f;
        match f.task {
            Task::Function(first, def) => {
                if f.id >= first {
                    f.id = def + 1;
                    assert(step_result(m) == (with_top(m, f@), Action::Continue));
                    self.finish_keep(f, Ghost(m), Action::Continue)
                } else {
                    self.finish_pop(f.owns_regs, Ghost(m))
                }
            },
            Task::Main(_) => {
                f.id += 1;
                assert(step_result(m) == (with_top(m, f@), Action::StrayClose));
                self.finish_keep(f, Ghost(m), Action::StrayClose)
            },
        }
    }

    /// A `{`: runs the scope on the shared bank, then goes on after its `}`.
    fn run_open_scope(&mut self, f: Frame, Ghost(m): Ghost<MachineView>) -> (a: Action)
        requires
            old(self).at_command(f@, m),
            m.code[f.id as int] == 123,
        ensures
            machine_ok(final(self)@),
            (final(self)@, a) == step_result(m),
    {
        let mut f = f;
        let found = find_scope_end(self.code.as_slice(), f.id + 1, 123, 125);
        proof {
            lemma_scope_range(m.code, f.id + 1, 1, false, 123, 125);
        }
        let j = match found {
            Some(j) => j,
            None => {
                proof {
                    assert(false);
                }
                f.id
            },
        };
        let start = f.id + 1;
        let g = Frame {
            id: start,
            current_reg: 0,
            task: Task::Main(start),
            loops: Vec::new(),
            funcs: std::collections::HashMap::new(),
            input: Vec::new(),
            in_comment: false,
            regs: f.main_regs,
            main_regs: f.regs,
            owns_regs: false,
        };
        let ghost t = f@;
        f.id = j + 1;
        assert(g@ == new_frame(start, Task::Main(start), t.main_regs, t.regs, false));
        assert(step_result(m) == (MachineView {
            code: m.code,
            frames: m.frames.update(m.frames.len() - 1, f@).push(g@),
            cells: self.cells@,
        }, Action::Continue));
        self.push_pair(f, g, Ghost(m))
    }

    /// The commands that change only the running frame and its cell.
    fn run_simple(&mut self, f: Frame, c: u8, Ghost(m): Ghost<MachineView>) -> (a: Action)
        requires
            old(self).at_command(f@, m),
            c == m.code[f.id as int],
            c != 40 && c != 41 && c != 123 && c != 125,
        ensures
            machine_ok(final(self)@),
            (final(self)@, a) == step_result(m),
    {
        let mut f = f;
        let (pos, v) = self.cell_of(&f, Ghost(m));
        if c == 96 {
            f.in_comment = true;
            f.id += 1;
            assert(step_result(m) == (with_top(m, f@), Action::Continue));
            self.finish_keep(f, Ghost(m), Action::Continue)
        } else if c == 43 || c == 45 {
            let nv: u32 = if c == 43 {
                if v < 255 {
                    v + 1
                } else {
                    0
                }
            } else if v > 0 {
                v - 1
            } else {
                255
            };
            self.cells.set(pos, nv);
            f.id += 1;
            assert(step_result(m) == (with_top_cell(m, f@, nv), Action::Continue));
            self.finish_keep(f, Ghost(m), Action::Continue)
        } else if c == 62 || c == 60 {
            f.current_reg = if c == 62 {
                if f.current_reg < 99 {
                    f.current_reg + 1
                } else {
                    0
                }
            } else if f.current_reg > 0 {
                f.current_reg - 1
            } else {
                99
            };
            f.id += 1;
            assert(step_result(m) == (with_top(m, f@), Action::Continue));
            self.finish_keep(f, Ghost(m), Action::Continue)
        } else if c == 46 {
            let action = match char_from_code(v) {
                Some(ch) => Action::Output(ch),
                None => {
                    proof {
                        assert(false);
                    }
                    Action::Continue
                },
            };
            f.id += 1;
            assert(step_result(m) == (with_top(m, f@), action));
            self.finish_keep(f, Ghost(m), action)
        } else if c == 44 {
            match f.input.pop() {
                Some(ch) => {
                    self.cells.set(pos, ch as u32);
                    f.id += 1;
                    assert(step_result(m) == (with_top_cell(m, f@, ch as u32), Action::Continue));
                    self.finish_keep(f, Ghost(m), Action::Continue)
                },
                None => {
                    assert(with_top(m, f@).frames =~= m.frames);
                    assert(step_result(m) == (with_top(m, f@), Action::NeedInput));
                    self.finish_keep(f, Ghost(m), Action::NeedInput)
                },
            }
        } else if c == 91 {
            if v == 0 {
                let found = find_scope_end(self.code.as_slice(), f.id + 1, 91, 93);
                proof {
                    lemma_scope_range(m.code, f.id + 1, 1, false, 91, 93);
                }
                let j = match found {
                    Some(j) => j,
                    None => {
                        proof {
                            assert(false);
                        }
                        f.id
                    },
                };
                f.id = j + 1;
            } else {
                f.loops.push(f.id);
                f.id += 1;
            }
            assert(step_result(m) == (with_top(m, f@), Action::Continue));
            self.finish_keep(f, Ghost(m), Action::Continue)
        } else if c == 93 {
            let k = f.loops.len();
            if v > 0 {
                f.id = f.loops[k - 1] + 1;
            } else {
                f.loops.pop();
                f.id += 1;
            }
            assert(step_result(m) == (with_top(m, f@), Action::Continue));
            self.finish_keep(f, Ghost(m), Action::Continue)
        } else {
            f.id += 1;
            assert(step_result(m) == (with_top(m, f@), Action::Continue));
            self.finish_keep(f, Ghost(m), Action::Continue)
        }
    }

    /// Runs one step of the program: the running frame handles the byte at
    /// its index (or returns, at the end of the program).
    pub fn step(&mut self) -> (a: Action)
        requires
            machine_ok(old(self)@),
            !faults(old(self)@),
        ensures
            machine_ok(final(self)@),
            (final(self)@, a) == step_result(old(self)@),
    {
        let ghost m = self@;
        proof {
            self.lemma_view_frames();
        }
        let n = self.frames.len();
        if n == 0 {
            return Action::Finished;
        }
        proof {
            assert(m.frames.take(n as int) =~= m.frames);
            assert(frame_ok(top(m), banks(m.frames), m.code.len()));
        }
        let mut f = self.frames.pop().unwrap();
        proof {
            assert(f@ == top(m));
            assert(self.holds_rest(m));
        }
        if f.id >= self.code.len() {
            return self.finish_pop(f.owns_regs, Ghost(m));
        }
        if f.in_comment {
            f.in_comment = false;
            f.id += 1;
            assert(step_result(m) == (with_top(m, f@), Action::Continue));
            return self.finish_keep(f, Ghost(m), Action::Continue);
        }
        let c = self.code[f.id];
        if c == 40 {
            self.run_open_paren(f, Ghost(m))
        } else if c == 41 {
            self.run_close_paren(f, Ghost(m))
        } else if c == 123 {
            self.run_open_scope(f, Ghost(m))
        } else if c == 125 {
            self.finish_pop(f.owns_regs, Ghost(m))
        } else {
            self.run_simple(f, c, Ghost(m))
        }
    }

    /// Whether the running frame waits on a `,` for a line of input.
    pub fn awaits_input(&self) -> (r: bool)
        requires
            machine_ok(self@),
        ensures
            r == awaits_input(self@),
    {
        proof {
            self.lemma_view_frames();
        }
        let n = self.frames.len();
        if n == 0 {
            return false;
        }
        let f = &self.frames[n - 1];
        assert(f@ == top(self@));
        f.id < self.code.len() && !f.in_comment && self.code[f.id] == 44 && f.input.len() == 0
    }

    /// Hands a line of input to a `,` that waits for one: its first
    /// character other than a newline goes into the cell, the rest stays for
    /// the next `,`s of the same frame. An empty line leaves the `,` waiting;
    /// a machine that waits for nothing is left as it is.
    pub fn feed_line(&mut self, line: &String)
        requires
            machine_ok(old(self)@),
        ensures
            machine_ok(final(self)@),
            final(self)@ == fed(old(self)@, line@),
    {
        if !self.awaits_input() {
            return;
        }
        let ghost m = self@;
        let chars = chars_of(line.as_str());
        let mut pending: Vec<char> = Vec::new();
        let mut i: usize = chars.len();
        assert(chars@.skip(chars@.len() as int) =~= Seq::<char>::empty());
        while i > 0
            invariant
                i <= chars.len(),
                chars@ == line@,
                pending@ == pending_input(chars@.skip(i as int)),
            decreases i,
        {
            i -= 1;
            assert(chars@.skip(i as int).skip(1) =~= chars@.skip(i + 1));
            assert(chars@.skip(i as int)[0] == chars@[i as int]);
            if chars[i] != '\n' {
                pending.push(chars[i]);
            }
        }
        assert(chars@.skip(0) =~= chars@);
        proof {
            self.lemma_view_frames();
        }
        let n = self.frames.len();
        proof {
            assert(m.frames.take(n as int) =~= m.frames);
            assert(frame_ok(top(m), banks(m.frames), m.code.len()));
        }
        let mut f = self.frames.pop().unwrap();
        assert(f@ == top(m));
        let pos = f.regs * 100 + f.current_reg;
        f.input = pending;
        let ghost p = f.input@;
        match f.input.pop() {
            Some(ch) => {
                self.cells.set(pos, ch as u32);
                f.id += 1;
            },
            None => {},
        }
        let ghost fv = f@;
        self.frames.push(f);
        proof {
            self.lemma_view_frames();
            assert(self@.frames =~= m.frames.update(n - 1, fv));
            if p.len() == 0 {
                assert(p =~= top(m).input);
                assert(fv == top(m));
                assert(self@.frames =~= m.frames);
                assert(self@ == m);
            } else {
                assert(self@ == fed(m, line@));
                lemma_with_top_ok(m, fv, self@.cells);
            }
        }
    }

    /// The value of the cell under the pointer of the running frame, if a
    /// frame runs.
    pub fn current_cell(&self) -> (r: Option<u32>)
        requires
            machine_ok(self@),
        ensures
            r == (if self@.frames.len() > 0 {
                Some(cell(self@))
            } else {
                None
            }),
    {
        proof {
            self.lemma_view_frames();
        }
        let n = self.frames.len();
        if n == 0 {
            return None;
        }
        proof {
            assert(self@.frames.take(n as int) =~= self@.frames);
            assert(frame_ok(top(self@), banks(self@.frames), self@.code.len()));
        }
        let f = &self.frames[n - 1];
        assert(f@ == top(self@));
        Some(self.cells[f.regs * 100 + f.current_reg])
    }
}

/// The interpreter: the command characters of the language, and the way to
/// check and start programs.
pub struct Interp {
    pub _syms: [char; 12],
}

impl Interp {
    /// An interpreter of the twelve command characters.
    pub fn new() -> (r: Interp)
        ensures
            r._syms@ == seq!['+', '-', '(', ')', '[', ']', '{', '}', '<', '>', ',', '.'],
    {
        Interp { _syms: ['+', '-', '(', ')', '[', ']', '{', '}', '<', '>', ',', '.'] }
    }

    /// The bracket errors of a program.
    pub fn check_code(&self, code: &String) -> (errors: Vec<Error>)
        ensures
            errors@ == bracket_errors(code@),
    {
        let found = Error::check_brackets(code);
        let mut errors: Vec<Error> = Vec::new();
        let mut i: usize = 0;
        while i < found.len()
            invariant
                i <= found.len(),
                errors@ == found@.take(i as int),
            decreases found.len() - i,
        {
            errors.push(found[i].clone());
            i += 1;
            assert(found@.take(i as int) =~= found@.take(i - 1).push(found@[i - 1]));
        }
        assert(found@.take(i as int) =~= found@);
        errors
    }

    /// Starts `code` as the main program; `Machine::step` then runs it.
    pub fn interpret_main(&self, code: String) -> (r: Machine)
        ensures
            r@ == started(vstd::utf8::encode_utf8(code@)),
            machine_ok(r@),
    {
        let bytes = code.as_str().as_bytes_vec();
        let mut cells: Vec<u32> = Vec::new();
        let mut k: usize = 0;
        while k < 200
            invariant
                k <= 200,
                cells@ == Seq::new(k as nat, |i: int| 0u32),
            decreases 200 - k,
        {
            cells.push(0);
            assert(Seq::new((k + 1) as nat, |i: int| 0u32) =~= Seq::new(k as nat, |i: int| 0u32).push(0));
            k += 1;
        }
        let mut frames: Vec<Frame> = Vec::new();
        frames.push(
            Frame {
                id: 0,
                current_reg: 0,
                task: Task::Main(0),
                loops: Vec::new(),
                funcs: std::collections::HashMap::new(),
                input: Vec::new(),
                in_comment: false,
                regs: 0,
                main_regs: 1,
                owns_regs: false,
            },
        );
        let _ = bytes.len();
        let r = Machine { code: bytes, frames, cells };
        proof {
            r.lemma_view_frames();
            assert(r@.frames =~= started(vstd::utf8::encode_utf8(code@)).frames);
            let s = r@;
            assert(s.frames.drop_last() =~= Seq::<FrameView>::empty());
            assert(s.frames.take(1) =~= s.frames);
            assert(owned_banks(Seq::<FrameView>::empty()) == 0);
            assert(!s.frames.last().owns_regs);
            assert(owned_banks(s.frames) == 0);
            assert(banks(s.frames.take(1)) == 2);
            assert(frame_ok(s.frames[0], 2, s.code.len()));
        }
        r
    }
}

/// The bytes that mean something to the interpreter: the twelve command
/// characters and the backtick.
pub open spec fn is_command_byte(c: u8) -> bool {
    c == 43 || c == 45 || c == 40 || c == 41 || c == 91 || c == 93 || c == 123 || c == 125
        || c == 60 || c == 62 || c == 44 || c == 46 || c == 96
}

/// Any other character changes nothing: the running frame just moves on.
pub proof fn law_other_bytes_do_nothing(m: MachineView)
    requires
        m.frames.len() > 0,
        top(m).id < m.code.len(),
        !top(m).in_comment,
        !is_command_byte(m.code[top(m).id as int]),
    ensures
        step_result(m) == (with_top(m, advanced(top(m))), Action::Continue),
{
}

/// A backtick makes the byte after it be passed over, whatever it is.
pub proof fn law_backtick_skips_next(m: MachineView)
    requires
        machine_ok(m),
        m.frames.len() > 0,
        top(m).id + 1 < m.code.len(),
        !top(m).in_comment,
        m.code[top(m).id as int] == 96,
    ensures
        step_result(m).1 == Action::Continue,
        step_result(step_result(m).0) == (
            with_top(m, FrameView { id: (top(m).id + 2) as usize, ..top(m) }),
            Action::Continue,
        ),
{
    let m1 = step_result(m).0;
    assert(m1.frames.len() == m.frames.len());
    assert(top(m1) == advanced(FrameView { in_comment: true, ..top(m) }));
    assert(m1.frames.update(m1.frames.len() - 1, advanced(FrameView { in_comment: false, ..top(m1) }))
        =~= m.frames.update(m.frames.len() - 1, FrameView { id: (top(m).id + 2) as usize, ..top(m) }));
}

/// `+` then `-` (or `-` then `+`) leave a cell that holds a byte value as it
/// was; `>` then `<` leave the pointer where it was.
pub proof fn law_inverse_commands(m: MachineView)
    requires
        machine_ok(m),
        m.frames.len() > 0,
        top(m).id + 1 < m.code.len(),
        !top(m).in_comment,
        cell(m) <= 255,
        ({
            let c = m.code[top(m).id as int];
            let d = m.code[top(m).id + 1];
            (c == 43 && d == 45) || (c == 45 && d == 43) || (c == 62 && d == 60)
        }),
    ensures
        step_result(step_result(m).0) == (
            with_top(m, FrameView { id: (top(m).id + 2) as usize, ..top(m) }),
            Action::Continue,
        ),
{
    let n = m.frames.len();
    assert(m.frames.take(n as int) =~= m.frames);
    assert(frame_ok(top(m), banks(m.frames), m.code.len()));
    let m1 = step_result(m).0;
    let m2 = step_result(m1).0;
    let want = with_top(m, FrameView { id: (top(m).id + 2) as usize, ..top(m) });
    assert(m2.frames =~= want.frames);
    assert(m2.cells =~= want.cells);
}

/// Every cell of the machine, and every character waiting for a `,`, holds
/// a byte value (at most 255).
pub open spec fn bytes_only(m: MachineView) -> bool {
    &&& forall|i: int| 0 <= i < m.cells.len() ==> #[trigger] m.cells[i] <= 255
    &&& forall|i: int, k: int|
        0 <= i < m.frames.len() && 0 <= k < m.frames[i].input.len() ==> (#[trigger] m.frames[i].input[k]) as u32 <= 255
}

/// The characters of a line waiting for `,`s are the line's own.
proof fn lemma_pending_bytes(line: Seq<char>)
    requires
        forall|k: int| 0 <= k < line.len() ==> (#[trigger] line[k]) as u32 <= 255,
    ensures
        forall|k: int| 0 <= k < pending_input(line).len() ==> (#[trigger] pending_input(line)[k]) as u32 <= 255,
    decreases line.len(),
{
    if line.len() > 0 {
        let rest = line.skip(1);
        assert forall|k: int| 0 <= k < rest.len() implies (#[trigger] rest[k]) as u32 <= 255 by {
            assert(rest[k] == line[k + 1]);
        }
        lemma_pending_bytes(rest);
        let p = pending_input(line);
        let q = pending_input(rest);
        assert forall|k: int| 0 <= k < p.len() implies (#[trigger] p[k]) as u32 <= 255 by {
            if line[0] != '\n' && k == q.len() {
                assert(p[k] == line[0]);
            } else {
                assert(p[k] == q[k]);
            }
        }
    }
}

/// Once every cell and every waiting character holds a byte value, a step
/// keeps it so, `,` included, and a `.` prints a character of at most
/// `'\u{ff}'`: the cell under the pointer always holds a character code.
pub proof fn law_step_keeps_bytes(m: MachineView)
    requires
        machine_ok(m),
        !faults(m),
        bytes_only(m),
    ensures
        bytes_only(step_result(m).0),
        m.frames.len() > 0 ==> is_char_code(cell(m)),
        step_result(m).1 matches Action::Output(c) ==> c as u32 <= 255,
{
    if m.frames.len() == 0 {
        return;
    }
    let n = m.frames.len();
    assert(m.frames.take(n as int) =~= m.frames);
    assert(frame_ok(top(m), banks(m.frames), m.code.len()));
    let f = top(m);
    let r = step_result(m).0;
    assert(cell(m) <= 255);
    assert forall|i: int| 0 <= i < r.cells.len() implies #[trigger] r.cells[i] <= 255 by {
        if i < m.cells.len() && r.cells[i] != m.cells[i] {
            assert(i == cell_pos(f));
            if f.input.len() > 0 {
                assert(f.input[f.input.len() - 1] as u32 <= 255);
            }
        }
    }
    assert forall|i: int, k: int|
        0 <= i < r.frames.len() && 0 <= k < r.frames[i].input.len() implies (
        #[trigger] r.frames[i].input[k]) as u32 <= 255 by {
        if i < n - 1 {
            assert(r.frames[i] == m.frames[i]);
        } else if i == n - 1 {
            assert(r.frames[i].input.len() <= f.input.len());
            assert(r.frames[i].input[k] == f.input[k]);
        }
    }
}

/// A line of input of characters up to `'\u{ff}'` keeps every cell and
/// every waiting character a byte value.
pub proof fn law_fed_keeps_bytes(m: MachineView, line: Seq<char>)
    requires
        machine_ok(m),
        bytes_only(m),
        forall|k: int| 0 <= k < line.len() ==> (#[trigger] line[k]) as u32 <= 255,
    ensures
        bytes_only(fed(m, line)),
{
    lemma_pending_bytes(line);
    let p = pending_input(line);
    let r = fed(m, line);
    if awaits_input(m) && p.len() > 0 {
        let n = m.frames.len();
        assert(m.frames.take(n as int) =~= m.frames);
        assert(frame_ok(top(m), banks(m.frames), m.code.len()));
        assert(p[p.len() - 1] as u32 <= 255);
        assert forall|i: int| 0 <= i < r.cells.len() implies #[trigger] r.cells[i] <= 255 by {
            if r.cells[i] != m.cells[i] {
                assert(i == cell_pos(top(m)));
            }
        }
        assert forall|i: int, k: int|
            0 <= i < r.frames.len() && 0 <= k < r.frames[i].input.len() implies (
            #[trigger] r.frames[i].input[k]) as u32 <= 255 by {
            if i < n - 1 {
                assert(r.frames[i] == m.frames[i]);
            } else {
                assert(r.frames[i].input[k] == p[k]);
            }
        }
    }
}

/// Loops nest: take a frame entering a loop at a `[` (on a non-zero cell),
/// and any later `]` of that frame while this loop is still the innermost
/// one entered (the loop stack as the `[` left it). On a non-zero cell the
/// `]` goes back to just after that same `[`, the stack unchanged; on a zero
/// cell it leaves the loop, and the stack is again as before the `[`.
pub proof fn law_close_returns_to_its_loop(m: MachineView, m2: MachineView)
    requires
        machine_ok(m),
        m.frames.len() > 0,
        top(m).id < m.code.len(),
        !top(m).in_comment,
        m.code[top(m).id as int] == 91,
        cell(m) != 0,
        machine_ok(m2),
        m2.frames.len() > 0,
        top(m2).id < m2.code.len(),
        !top(m2).in_comment,
        m2.code[top(m2).id as int] == 93,
        top(m2).loops == top(step_result(m).0).loops,
    ensures
        step_result(m2).1 == Action::Continue,
        cell(m2) != 0 ==> top(step_result(m2).0).id == top(m).id + 1 && top(step_result(m2).0).loops
            == top(m2).loops,
        cell(m2) == 0 ==> top(step_result(m2).0).id == top(m2).id + 1 && top(step_result(m2).0).loops
            == top(m).loops,
{
    let f = top(m);
    let n = m.frames.len();
    assert(m.frames.take(n as int) =~= m.frames);
    assert(frame_ok(f, banks(m.frames), m.code.len()));
    assert(top(step_result(m).0).loops == f.loops.push(f.id));
    assert(f.loops.push(f.id).drop_last() =~= f.loops);
}

/// A function call runs on a new bank of 100 zero cells, after all the
/// others, and leaves the cells of its caller as they were; its `{ }`
/// scopes use the same bank as the caller's.
pub proof fn law_call_gets_fresh_cells(m: MachineView)
    requires
        machine_ok(m),
        !faults(m),
        m.frames.len() > 0,
        top(m).id < m.code.len(),
        !top(m).in_comment,
        m.code[top(m).id as int] == 40,
        top(m).funcs.contains_key(cell(m)),
    ensures
        ({
            let r = step_result(m).0;
            &&& r.frames.len() == m.frames.len() + 1
            &&& top(r).regs == m.cells.len() / 100
            &&& top(r).main_regs == top(m).main_regs
            &&& r.cells.len() == m.cells.len() + 100
            &&& r.cells.take(m.cells.len() as int) == m.cells
            &&& forall|k: int| 0 <= k < 100 ==> #[trigger] r.cells[m.cells.len() + k] == 0
        }),
{
    let r = step_result(m).0;
    assert(r.cells.take(m.cells.len() as int) =~= m.cells);
}

/// A `{ }` scope written right inside another one works on the cells of the
/// code around the outer scope: scopes swap the frame's two banks.
pub proof fn law_nested_scopes_share_outer_cells(m: MachineView)
    requires
        machine_ok(m),
        !faults(m),
        m.frames.len() > 0,
        top(m).id + 1 < m.code.len(),
        !top(m).in_comment,
        m.code[top(m).id as int] == 123,
        m.code[top(m).id + 1] == 123,
        !faults(step_result(m).0),
    ensures
        top(step_result(m).0).regs == top(m).main_regs,
        top(step_result(m).0).main_regs == top(m).regs,
        top(step_result(step_result(m).0).0).regs == top(m).regs,
        top(step_result(step_result(m).0).0).main_regs == top(m).main_regs,
{
}

} // verus!
