//! The interpreter core: the run-time slot store, render-time text
//! interpolation, and the validity notion that ties a parsed program to
//! safe execution (every `$N` read at run time was declared on the
//! lexical path that execution follows).

use vstd::prelude::*;

use crate::models::{Branch, OpCode, SpecNode, SpecOption, spec_nodes, spec_options,
    lemma_spec_nodes, lemma_spec_options};
use crate::parser::{spec_validate, spec_validate_from};
use crate::scan::{char_at, char_len, digit_run_end, digit_run_end_exec, lemma_digit_run_end,
    push_char, run_value, run_value_exec};

verus! {

/// The mapping that a pair list spells: later pairs overwrite earlier
/// ones, as run-time answers overwrite previous answers for the slot.
pub open spec fn pairs_map(ps: Seq<(usize, String)>) -> Map<nat, Seq<char>>
    decreases ps.len(),
{
    if ps.len() == 0 {
        Map::empty()
    } else {
        pairs_map(ps.drop_last()).insert(ps.last().0 as nat, ps.last().1@)
    }
}

/// The run-time store: captured input text, keyed by slot id. Populated
/// only by question execution; read only by interpolation; its model is
/// a map from slot id to the text last stored under it.
pub struct StateStore {
    pairs: Vec<(usize, String)>,
}

impl View for StateStore {
    type V = Map<nat, Seq<char>>;

    closed spec fn view(&self) -> Map<nat, Seq<char>> {
        pairs_map(self.pairs@)
    }
}

impl StateStore {
    /// An empty store: no slot holds a value.
    pub fn new() -> (s: StateStore)
        ensures
            s@ == Map::<nat, Seq<char>>::empty(),
    {
        let s = StateStore { pairs: Vec::new() };
        proof {
            assert(s.pairs@.len() == 0);
        }
        s
    }

    /// Stores `value` under `id`, overwriting any previous value.
    pub fn insert(&mut self, id: usize, value: String)
        ensures
            final(self)@ == old(self)@.insert(id as nat, value@),
    {
        let ghost before = self.pairs@;
        self.pairs.push((id, value));
        proof {
            assert(self.pairs@.drop_last() =~= before);
            assert(self.pairs@.last() == (self.pairs@.last().0, self.pairs@.last().1));
        }
    }

    /// The value last stored under `id`, if any.
    #[verifier::loop_isolation(false)]
    pub fn get(&self, id: usize) -> (r: Option<String>)
        ensures
            match r {
                Some(v) => self@.dom().contains(id as nat) && v@ == self@[id as nat],
                None => !self@.dom().contains(id as nat),
            },
    {
        let ghost ps = self.pairs@;
        let mut j = self.pairs.len();
        proof {
            assert(ps.take(ps.len() as int) =~= ps);
        }
        loop
            invariant
                j <= ps.len(),
                ps == self.pairs@,
                pairs_map(ps).dom().contains(id as nat) == pairs_map(ps.take(j as int)).dom()
                    .contains(id as nat),
                pairs_map(ps).dom().contains(id as nat) ==> pairs_map(ps)[id as nat] == pairs_map(
                    ps.take(j as int))[id as nat],
            decreases j,
        {
            if j == 0 {
                proof {
                    assert(ps.take(0) =~= Seq::<(usize, String)>::empty());
                    assert(pairs_map(ps.take(0)) =~= Map::<nat, Seq<char>>::empty());
                }
                return None;
            }
            proof {
                assert(ps.take(j as int).drop_last() =~= ps.take(j - 1));
                assert(ps.take(j as int).last() == ps[j - 1]);
            }
            let hit: bool = self.pairs[j - 1].0 == id;
            if hit {
                let v = self.pairs[j - 1].1.clone();
                return Some(v);
            }
            j = j - 1;
        }
    }

    /// Every key the store holds fits the machine's slot-id range.
    pub proof fn lemma_keys_bounded(&self)
        ensures
            forall|k: nat| self@.dom().contains(k) ==> k <= usize::MAX as nat,
    {
        Self::lemma_pairs_keys_bounded(self.pairs@);
    }

    proof fn lemma_pairs_keys_bounded(ps: Seq<(usize, String)>)
        ensures
            forall|k: nat| pairs_map(ps).dom().contains(k) ==> k <= usize::MAX as nat,
        decreases ps.len(),
    {
        if ps.len() > 0 {
            Self::lemma_pairs_keys_bounded(ps.drop_last());
            assert forall|k: nat| pairs_map(ps).dom().contains(k) implies k <= usize::MAX
                as nat by {
                if k != ps.last().0 as nat {
                    assert(pairs_map(ps.drop_last()).dom().contains(k));
                }
            }
        }
    }
}

/// The interpolation of `text` from position `i` on: every `$N` whose
/// slot holds a value is replaced by that value; a `$` not followed by
/// digits passes through literally. (A reference to an absent slot is
/// kept verbatim here so the definition is total; validated programs
/// never reach one.)
pub open spec fn spec_interp_from(text: Seq<char>, i: int, m: Map<nat, Seq<char>>) -> Seq<char>
    recommends
        0 <= i,
    decreases text.len() - i,
    when 0 <= i
    via spec_interp_from_dec
{
    if i >= text.len() {
        Seq::empty()
    } else if text[i] == '$' {
        let j = digit_run_end(text, i + 1);
        if j == i + 1 {
            seq!['$'] + spec_interp_from(text, i + 1, m)
        } else if m.dom().contains(run_value(text, i + 1, j) as nat) {
            m[run_value(text, i + 1, j) as nat] + spec_interp_from(text, j, m)
        } else {
            text.subrange(i, j) + spec_interp_from(text, j, m)
        }
    } else {
        seq![text[i]] + spec_interp_from(text, i + 1, m)
    }
}

#[via_fn]
proof fn spec_interp_from_dec(text: Seq<char>, i: int, m: Map<nat, Seq<char>>) {
    if 0 <= i < text.len() && text[i] == '$' {
        lemma_digit_run_end(text, i + 1);
    }
}

/// The interpolation of a whole literal.
pub open spec fn spec_interp(text: Seq<char>, m: Map<nat, Seq<char>>) -> Seq<char> {
    spec_interp_from(text, 0, m)
}

/// Substitutes the stored value of every `$N` reference in `text`; any
/// `$` not followed by digits passes through as a literal `$`. The text
/// must validate against the store's slots — the parser guarantees this
/// for every literal of a compiled program at the point it is rendered.
#[verifier::loop_isolation(false)]
pub fn interpolate(text: &String, store: &StateStore) -> (r: String)
    requires
        spec_validate(text@, store@.dom()) is None,
    ensures
        r@ == spec_interp(text@, store@),
{
    let ghost m = store@;
    let len = char_len(text);
    let mut out = String::new();
    let mut i: usize = 0;
    proof {
        assert(Seq::<char>::empty() + spec_interp_from(text@, 0, m) =~= spec_interp_from(
            text@, 0, m));
    }
    loop
        invariant
            i <= len,
            spec_validate_from(text@, i as int, m.dom()) is None,
            out@ + spec_interp_from(text@, i as int, m) == spec_interp(text@, m),
        decreases len - i,
    {
        if i >= len {
            proof {
                assert(out@ + Seq::<char>::empty() =~= out@);
            }
            return out;
        }
        let c = char_at(text, i);
        let ghost out_before = out@;
        if c == '$' {
            let j = digit_run_end_exec(text, i + 1);
            proof {
                lemma_digit_run_end(text@, i + 1);
            }
            if j == i + 1 {
                push_char(&mut out, c);
                proof {
                    assert(out_before + (seq!['$'] + spec_interp_from(text@, i + 1, m))
                        =~= out@ + spec_interp_from(text@, i + 1, m));
                }
                i = i + 1;
            } else {
                match run_value_exec(text, i + 1, j) {
                    None => {
                        proof {
                            store.lemma_keys_bounded();
                        }
                        vstd::pervasive::unreached()
                    },
                    Some(v) => {
                        match store.get(v) {
                            None => {
                                vstd::pervasive::unreached()
                            },
                            Some(val) => {
                                out.append(val.as_str());
                                proof {
                                    assert(out_before + (m[v as nat] + spec_interp_from(
                                        text@, j as int, m)) =~= out@ + spec_interp_from(
                                        text@, j as int, m));
                                }
                                i = j;
                            },
                        }
                    },
                }
            }
        } else {
            push_char(&mut out, c);
            proof {
                assert(out_before + (seq![text@[i as int]] + spec_interp_from(text@, i + 1, m))
                    =~= out@ + spec_interp_from(text@, i + 1, m));
            }
            i = i + 1;
        }
    }
}

/// The scope after executing (or parsing past) one node: a question
/// declares its slot, other nodes leave the scope unchanged.
pub open spec fn scope_after(n: SpecNode, scope: Set<nat>) -> Set<nat> {
    match n {
        SpecNode::Question(_, id) => scope.insert(id),
        _ => scope,
    }
}

/// One node is valid in `scope`: its text validates, and a branch offers
/// at least one option, each of whose bodies is valid in the same scope.
pub open spec fn spec_node_valid(n: SpecNode, scope: Set<nat>) -> bool
    decreases n, 0int,
{
    match n {
        SpecNode::Info(text) => spec_validate(text, scope) is None,
        SpecNode::Question(text, _) => spec_validate(text, scope) is None,
        SpecNode::Branch(text, opts) => {
            &&& spec_validate(text, scope) is None
            &&& opts.len() >= 1
            &&& forall|k: int| 0 <= k < opts.len() ==> spec_prog_valid(
                #[trigger] opts[k].body, scope)
        },
    }
}

/// A node sequence is valid in `scope`: each node is valid in the scope
/// as extended by the declarations of the nodes before it.
pub open spec fn spec_prog_valid(ns: Seq<SpecNode>, scope: Set<nat>) -> bool
    decreases ns, 1int,
{
    ns.len() == 0 || (spec_node_valid(ns[0], scope) && spec_prog_valid(
        ns.subrange(1, ns.len() as int),
        scope_after(ns[0], scope),
    ))
}

/// A literal that validates in a scope validates in every larger scope.
pub proof fn lemma_validate_monotone(text: Seq<char>, i: int, s1: Set<nat>, s2: Set<nat>)
    requires
        0 <= i,
        s1.subset_of(s2),
        spec_validate_from(text, i, s1) is None,
    ensures
        spec_validate_from(text, i, s2) is None,
    decreases text.len() - i,
{
    if i < text.len() {
        if text[i] == '$' {
            lemma_digit_run_end(text, i + 1);
            let j = digit_run_end(text, i + 1);
            if j == i + 1 {
                lemma_validate_monotone(text, i + 1, s1, s2);
            } else {
                lemma_validate_monotone(text, j, s1, s2);
            }
        } else {
            lemma_validate_monotone(text, i + 1, s1, s2);
        }
    }
}

/// A node valid in a scope is valid in every larger scope.
pub proof fn lemma_node_valid_monotone(n: SpecNode, s1: Set<nat>, s2: Set<nat>)
    requires
        s1.subset_of(s2),
        spec_node_valid(n, s1),
    ensures
        spec_node_valid(n, s2),
    decreases n, 0int,
{
    match n {
        SpecNode::Info(text) => {
            lemma_validate_monotone(text, 0, s1, s2);
        },
        SpecNode::Question(text, _) => {
            lemma_validate_monotone(text, 0, s1, s2);
        },
        SpecNode::Branch(text, opts) => {
            lemma_validate_monotone(text, 0, s1, s2);
            assert forall|k: int| 0 <= k < opts.len() implies spec_prog_valid(
                #[trigger] opts[k].body, s2) by {
                lemma_prog_valid_monotone(opts[k].body, s1, s2);
            }
        },
    }
}

/// A node sequence valid in a scope is valid in every larger scope.
pub proof fn lemma_prog_valid_monotone(ns: Seq<SpecNode>, s1: Set<nat>, s2: Set<nat>)
    requires
        s1.subset_of(s2),
        spec_prog_valid(ns, s1),
    ensures
        spec_prog_valid(ns, s2),
    decreases ns, 1int,
{
    if ns.len() > 0 {
        lemma_node_valid_monotone(ns[0], s1, s2);
        assert(scope_after(ns[0], s1).subset_of(scope_after(ns[0], s2)));
        lemma_prog_valid_monotone(ns.subrange(1, ns.len() as int), scope_after(ns[0], s1),
            scope_after(ns[0], s2));
    }
}

/// One discrete input event from the player, as the terminal layer
/// reports it.
#[derive(Debug, Clone, Copy, PartialEq)]
pub enum InputEvent {
    /// A printable character key.
    Character(char),
    /// Navigation up.
    Up,
    /// Navigation down.
    Down,
    /// Line submit / selection confirm.
    Submit,
    /// Delete the previous character.
    Backspace,
}

/// The model of a frame stack, frame by frame (the last is the top).
pub open spec fn spec_frames(fs: Seq<Vec<OpCode>>) -> Seq<Seq<SpecNode>>
    decreases fs,
{
    if fs.len() == 0 {
        Seq::empty()
    } else {
        spec_frames(fs.drop_last()).push(spec_nodes(fs.last()@))
    }
}

/// `spec_frames` maps the node-sequence model over the frames.
pub proof fn lemma_spec_frames(fs: Seq<Vec<OpCode>>)
    ensures
        spec_frames(fs).len() == fs.len(),
        forall|i: int| 0 <= i < fs.len() ==> spec_frames(fs)[i] == spec_nodes(#[trigger] fs[i]@),
    decreases fs.len(),
{
    if fs.len() > 0 {
        lemma_spec_frames(fs.drop_last());
        assert(spec_frames(fs) == spec_frames(fs.drop_last()).push(spec_nodes(fs.last()@)));
        assert forall|i: int| 0 <= i < fs.len() implies spec_frames(fs)[i] == spec_nodes(
            #[trigger] fs[i]@) by {
            if i < fs.len() - 1 {
                assert(fs.drop_last()[i] == fs[i]);
            }
        }
    } else {
        assert(spec_frames(fs).len() == 0);
    }
}

/// Pushing a frame on the executable side matches `push` on the model.
proof fn lemma_spec_frames_push(fs: Seq<Vec<OpCode>>, f: Vec<OpCode>)
    ensures
        spec_frames(fs.push(f)) == spec_frames(fs).push(spec_nodes(f@)),
{
    assert(fs.push(f).drop_last() =~= fs);
    assert(fs.push(f).last() == f);
}

/// Drops exhausted frames off the top of the stack.
pub open spec fn spec_pop_empty(fs: Seq<Seq<SpecNode>>) -> Seq<Seq<SpecNode>>
    decreases fs.len(),
{
    if fs.len() == 0 {
        fs
    } else if fs.last().len() == 0 {
        spec_pop_empty(fs.drop_last())
    } else {
        fs
    }
}

/// What is left after dropping exhausted frames is a prefix of the
/// stack, and its top (if any) is not exhausted.
pub proof fn lemma_pop_empty(fs: Seq<Seq<SpecNode>>)
    ensures
        spec_pop_empty(fs).len() <= fs.len(),
        forall|k: int| 0 <= k < spec_pop_empty(fs).len() ==> spec_pop_empty(fs)[k]
            == #[trigger] fs[k],
        spec_pop_empty(fs).len() > 0 ==> spec_pop_empty(fs).last().len() > 0,
    decreases fs.len(),
{
    if fs.len() > 0 && fs.last().len() == 0 {
        lemma_pop_empty(fs.drop_last());
        assert forall|k: int| 0 <= k < spec_pop_empty(fs).len() implies spec_pop_empty(fs)[k]
            == #[trigger] fs[k] by {
            assert(fs.drop_last()[k] == fs[k]);
        }
    }
}

/// Mathematical model of what the session awaits.
pub ghost enum SpecSessionMode {
    Ready,
    AwaitAck,
    AwaitLine { slot: nat, buffer: Seq<char> },
    AwaitChoice { options: Seq<SpecOption>, cursor: int },
    Done,
}

/// Mathematical model of a running session: the continuation stack of
/// node sequences still to execute (last is innermost), the slot store,
/// and what the session awaits.
pub ghost struct SpecSession {
    pub frames: Seq<Seq<SpecNode>>,
    pub store: Map<nat, Seq<char>>,
    pub mode: SpecSessionMode,
}

/// What the session awaits from the driver.
#[derive(Debug)]
pub enum SessionMode {
    /// The next node can execute.
    Ready,
    /// An info text was rendered; any key continues.
    AwaitAck,
    /// A question was rendered; line-edit events build the answer for
    /// the slot.
    AwaitLine(usize, Vec<char>),
    /// A branch was rendered; navigation moves the cursor over the
    /// options, confirm runs the selected option's body.
    AwaitChoice(Vec<Branch>, usize),
    /// Execution reached the end of the program.
    Done,
}

impl View for SessionMode {
    type V = SpecSessionMode;

    open spec fn view(&self) -> SpecSessionMode {
        match self {
            SessionMode::Ready => SpecSessionMode::Ready,
            SessionMode::AwaitAck => SpecSessionMode::AwaitAck,
            SessionMode::AwaitLine(slot, buffer) => SpecSessionMode::AwaitLine {
                slot: *slot as nat,
                buffer: buffer@,
            },
            SessionMode::AwaitChoice(options, cursor) => SpecSessionMode::AwaitChoice {
                options: spec_options(options@),
                cursor: *cursor as int,
            },
            SessionMode::Done => SpecSessionMode::Done,
        }
    }
}

/// All frames on the stack are valid in `scope`.
pub open spec fn frames_valid(fs: Seq<Seq<SpecNode>>, scope: Set<nat>) -> bool {
    forall|k: int| 0 <= k < fs.len() ==> spec_prog_valid(#[trigger] fs[k], scope)
}

/// The session invariant: every pending node sequence is valid in the
/// scope the store will provide when it runs — so interpolation can
/// never meet an unset slot.
pub open spec fn session_inv(s: SpecSession) -> bool {
    match s.mode {
        SpecSessionMode::Ready => frames_valid(s.frames, s.store.dom()),
        SpecSessionMode::AwaitAck => frames_valid(s.frames, s.store.dom()),
        SpecSessionMode::Done => frames_valid(s.frames, s.store.dom()),
        SpecSessionMode::AwaitLine { slot, buffer } => frames_valid(
            s.frames,
            s.store.dom().insert(slot),
        ),
        SpecSessionMode::AwaitChoice { options, cursor } => {
            &&& frames_valid(s.frames, s.store.dom())
            &&& options.len() >= 1
            &&& 0 <= cursor < options.len()
            &&& forall|k: int| 0 <= k < options.len() ==> spec_prog_valid(
                #[trigger] options[k].body, s.store.dom())
        },
    }
}

/// One step of the execution state machine: takes the next node off the
/// innermost pending sequence (dropping exhausted frames first, halting
/// when none is left), and returns the new session together with the
/// interpolated text to render, if any.
pub open spec fn spec_advance(s: SpecSession) -> (SpecSession, Option<Seq<char>>)
    recommends
        s.mode is Ready,
{
    let fs = spec_pop_empty(s.frames);
    if fs.len() == 0 {
        (SpecSession { frames: fs, store: s.store, mode: SpecSessionMode::Done }, None)
    } else {
        let top = fs.last();
        let rest = top.subrange(1, top.len() as int);
        let fs2 = fs.drop_last().push(rest);
        match top[0] {
            SpecNode::Info(text) => (
                SpecSession { frames: fs2, store: s.store, mode: SpecSessionMode::AwaitAck },
                Some(spec_interp(text, s.store)),
            ),
            SpecNode::Question(text, id) => (
                SpecSession {
                    frames: fs2,
                    store: s.store,
                    mode: SpecSessionMode::AwaitLine { slot: id, buffer: Seq::empty() },
                },
                Some(spec_interp(text, s.store)),
            ),
            SpecNode::Branch(text, opts) => (
                SpecSession {
                    frames: fs2,
                    store: s.store,
                    mode: SpecSessionMode::AwaitChoice { options: opts, cursor: 0 },
                },
                Some(spec_interp(text, s.store)),
            ),
        }
    }
}

/// One navigation step over a branch's options: down moves toward the
/// last option and clamps there; up moves toward the first and clamps
/// at zero; no event wraps around.
pub open spec fn spec_choice_step(cursor: int, len: int, ev: InputEvent) -> int {
    match ev {
        InputEvent::Up => if cursor > 0 {
            cursor - 1
        } else {
            0
        },
        InputEvent::Down => if cursor + 1 >= len {
            len - 1
        } else {
            cursor + 1
        },
        _ => cursor,
    }
}

/// One input event applied to the session: acknowledge, line editing,
/// or branch navigation; events that the current mode does not read are
/// ignored.
pub open spec fn spec_feed(s: SpecSession, ev: InputEvent) -> SpecSession {
    match s.mode {
        SpecSessionMode::Ready => s,
        SpecSessionMode::Done => s,
        SpecSessionMode::AwaitAck => SpecSession {
            frames: s.frames,
            store: s.store,
            mode: SpecSessionMode::Ready,
        },
        SpecSessionMode::AwaitLine { slot, buffer } => match ev {
            InputEvent::Character(c) => SpecSession {
                frames: s.frames,
                store: s.store,
                mode: SpecSessionMode::AwaitLine { slot, buffer: buffer.push(c) },
            },
            InputEvent::Backspace => SpecSession {
                frames: s.frames,
                store: s.store,
                mode: SpecSessionMode::AwaitLine {
                    slot,
                    buffer: if buffer.len() > 0 {
                        buffer.drop_last()
                    } else {
                        buffer
                    },
                },
            },
            InputEvent::Submit => SpecSession {
                frames: s.frames,
                store: s.store.insert(slot, buffer),
                mode: SpecSessionMode::Ready,
            },
            _ => s,
        },
        SpecSessionMode::AwaitChoice { options, cursor } => match ev {
            InputEvent::Submit => SpecSession {
                frames: s.frames.push(options[cursor].body),
                store: s.store,
                mode: SpecSessionMode::Ready,
            },
            _ => SpecSession {
                frames: s.frames,
                store: s.store,
                mode: SpecSessionMode::AwaitChoice {
                    options,
                    cursor: spec_choice_step(cursor, options.len() as int, ev),
                },
            },
        },
    }
}

/// Builds a `String` from collected characters.
fn string_from_chars(v: &Vec<char>) -> (r: String)
    ensures
        r@ == v@,
{
    let mut r = String::new();
    let mut i: usize = 0;
    while i < v.len()
        invariant
            i <= v@.len(),
            r@ == v@.take(i as int),
        decreases v@.len() - i,
    {
        push_char(&mut r, v[i]);
        proof {
            assert(v@.take(i as int).push(v@[i as int]) =~= v@.take(i + 1));
        }
        i = i + 1;
    }
    proof {
        assert(v@.take(v@.len() as int) =~= v@);
    }
    r
}

/// A running interactive session: the continuation stack of node
/// sequences still to execute, the slot store, and what is awaited.
/// The driver alternates `advance` (when ready) with rendering and
/// `feed`ing input events, until `Done`.
pub struct Session {
    frames: Vec<Vec<OpCode>>,
    store: StateStore,
    mode: SessionMode,
}

impl View for Session {
    type V = SpecSession;

    closed spec fn view(&self) -> SpecSession {
        SpecSession { frames: spec_frames(self.frames@), store: self.store@, mode: self.mode@ }
    }
}

impl Session {
    /// The session invariant; established by `new`, preserved by every
    /// step.
    pub open spec fn inv(&self) -> bool {
        session_inv(self@)
    }

    /// A session about to execute `program` from its first node, with
    /// every slot still unset.
    pub fn new(program: Vec<OpCode>) -> (s: Session)
        requires
            spec_prog_valid(spec_nodes(program@), Set::empty()),
        ensures
            s@ == (SpecSession {
                frames: seq![spec_nodes(program@)],
                store: Map::empty(),
                mode: SpecSessionMode::Ready,
            }),
            s.inv(),
    {
        let ghost prog = spec_nodes(program@);
        let mut frames: Vec<Vec<OpCode>> = Vec::new();
        frames.push(program);
        let s = Session { frames, store: StateStore::new(), mode: SessionMode::Ready };
        proof {
            lemma_spec_frames(s.frames@);
            assert(spec_frames(s.frames@)[0] == prog);
            assert(spec_frames(s.frames@) =~= seq![prog]);
            assert(Map::<nat, Seq<char>>::empty().dom() =~= Set::<nat>::empty());
            lemma_prog_valid_monotone(prog, Set::empty(), Map::<nat, Seq<char>>::empty().dom());
        }
        s
    }

    /// Whether execution has reached the end of the program.
    pub fn is_done(&self) -> (b: bool)
        ensures
            b == (self@.mode is Done),
    {
        match &self.mode {
            SessionMode::Done => true,
            _ => false,
        }
    }

    /// Whether the next node can execute.
    pub fn is_ready(&self) -> (b: bool)
        ensures
            b == (self@.mode is Ready),
    {
        match &self.mode {
            SessionMode::Ready => true,
            _ => false,
        }
    }

    /// Whether the session waits for an acknowledging key.
    pub fn awaits_ack(&self) -> (b: bool)
        ensures
            b == (self@.mode is AwaitAck),
    {
        match &self.mode {
            SessionMode::AwaitAck => true,
            _ => false,
        }
    }

    /// Whether the session waits for line input to a question.
    pub fn awaits_line(&self) -> (b: bool)
        ensures
            b == (self@.mode is AwaitLine),
    {
        match &self.mode {
            SessionMode::AwaitLine(_, _) => true,
            _ => false,
        }
    }

    /// Whether the session waits for a branch selection.
    pub fn awaits_choice(&self) -> (b: bool)
        ensures
            b == (self@.mode is AwaitChoice),
    {
        match &self.mode {
            SessionMode::AwaitChoice(_, _) => true,
            _ => false,
        }
    }

    /// The cursor over the options of the pending branch.
    pub fn choice_cursor(&self) -> (c: usize)
        requires
            self@.mode is AwaitChoice,
        ensures
            c as int == self@.mode->cursor,
    {
        match &self.mode {
            SessionMode::AwaitChoice(_, cursor) => *cursor,
            _ => vstd::pervasive::unreached(),
        }
    }

    /// The labels of the pending branch's options, in order.
    #[verifier::loop_isolation(false)]
    pub fn choice_labels(&self) -> (ls: Vec<String>)
        requires
            self@.mode is AwaitChoice,
        ensures
            ls@.len() == self@.mode->options.len(),
            forall|k: int| 0 <= k < ls@.len() ==> ls@[k]@ == self@.mode->options[k].label,
    {
        match &self.mode {
            SessionMode::AwaitChoice(options, _) => {
                proof {
                    lemma_spec_options(options@);
                }
                let mut ls: Vec<String> = Vec::new();
                let mut k: usize = 0;
                while k < options.len()
                    invariant
                        k <= options@.len(),
                        ls@.len() == k,
                        spec_options(options@).len() == options@.len(),
                        forall|m: int| 0 <= m < k ==> ls@[m]@ == spec_options(options@)[m].label,
                        forall|m: int| 0 <= m < options@.len() ==> spec_options(options@)[m]
                            == #[trigger] options@[m]@,
                    decreases options@.len() - k,
                {
                    ls.push(options[k].option.clone());
                    proof {
                        assert(options@[k as int]@ == spec_options(options@)[k as int]);
                        assert(ls@[k as int]@ == spec_options(options@)[k as int].label);
                    }
                    k = k + 1;
                }
                ls
            },
            _ => vstd::pervasive::unreached(),
        }
    }

    /// Executes the next node: renders nothing and halts where the
    /// program is exhausted; otherwise returns the interpolated text of
    /// the node and awaits the input it calls for.
    #[verifier::loop_isolation(false)]
    pub fn advance(&mut self) -> (r: Option<String>)
        requires
            old(self).inv(),
            old(self)@.mode is Ready,
        ensures
            final(self).inv(),
            final(self)@ == spec_advance(old(self)@).0,
            match r {
                Some(x) => spec_advance(old(self)@).1 == Some(x@),
                None => spec_advance(old(self)@).1 is None,
            },
    {
        let ghost s0 = old(self)@;
        loop
            invariant
                self.store == old(self).store,
                self.mode == old(self).mode,
                spec_pop_empty(spec_frames(self.frames@)) == spec_pop_empty(s0.frames),
                frames_valid(spec_frames(self.frames@), self.store@.dom()),
            decreases self.frames.len(),
        {
            let flen = self.frames.len();
            if flen == 0 {
                break;
            }
            if self.frames[flen - 1].len() > 0 {
                break;
            }
            let ghost fs_before = self.frames@;
            self.frames.pop();
            proof {
                lemma_spec_nodes(fs_before.last()@);
                assert(spec_frames(fs_before).last().len() == 0);
                assert(spec_frames(self.frames@) =~= spec_frames(fs_before).drop_last());
                lemma_spec_frames(fs_before);
                lemma_spec_frames(self.frames@);
                assert forall|k: int| 0 <= k < self.frames@.len() implies spec_prog_valid(
                    #[trigger] spec_frames(self.frames@)[k], self.store@.dom()) by {
                    assert(spec_frames(self.frames@)[k] == spec_frames(fs_before)[k]);
                }
            }
        }
        if self.frames.len() == 0 {
            self.mode = SessionMode::Done;
            proof {
                assert(spec_frames(self.frames@) =~= Seq::<Seq<SpecNode>>::empty());
                assert(spec_pop_empty(s0.frames).len() == 0);
            }
            return None;
        }
        let ghost fs_cur = spec_frames(self.frames@);
        proof {
            lemma_spec_frames(self.frames@);
            lemma_spec_nodes(self.frames@.last()@);
            assert(fs_cur.last().len() > 0);
            assert(spec_pop_empty(fs_cur) == fs_cur);
            lemma_pop_empty(s0.frames);
        }
        let mut top = match self.frames.pop() {
            Some(t) => t,
            None => vstd::pervasive::unreached(),
        };
        let ghost top_before = top@;
        let rest = top.split_off(1);
        let node = match top.pop() {
            Some(n) => n,
            None => vstd::pervasive::unreached(),
        };
        proof {
            assert(node == top_before[0]);
            assert(rest@ =~= top_before.subrange(1, top_before.len() as int));
            lemma_spec_nodes(top_before);
            lemma_spec_nodes(rest@);
            assert forall|k: int| 0 <= k < spec_nodes(rest@).len() implies spec_nodes(rest@)[k]
                == spec_nodes(top_before).subrange(1, spec_nodes(top_before).len() as int)[k] by {
                assert(spec_nodes(rest@)[k] == rest@[k]@);
                assert(rest@[k] == top_before[k + 1]);
                assert(spec_nodes(top_before)[k + 1] == top_before[k + 1]@);
            }
            assert(spec_nodes(rest@) =~= spec_nodes(top_before).subrange(
                1, spec_nodes(top_before).len() as int));
            assert(node@ == fs_cur.last()[0]);
            assert(spec_prog_valid(fs_cur.last(), self.store@.dom()));
            assert(spec_node_valid(node@, self.store@.dom()));
            lemma_spec_frames_push(self.frames@, rest);
        }
        let ghost fs2 = fs_cur.drop_last().push(spec_nodes(rest@));
        let ghost dom0 = self.store@.dom();
        match node {
            OpCode::Info(text) => {
                let out = interpolate(&text, &self.store);
                self.frames.push(rest);
                self.mode = SessionMode::AwaitAck;
                proof {
                    assert(spec_frames(self.frames@) =~= fs2);
                    lemma_spec_frames(self.frames@);
                    assert forall|k: int| 0 <= k < fs2.len() implies spec_prog_valid(
                        #[trigger] fs2[k], dom0) by {
                        if k < fs2.len() - 1 {
                            assert(fs2[k] == fs_cur[k]);
                        } else {
                            assert(fs2[k] == spec_nodes(rest@));
                        }
                    }
                }
                Some(out)
            },
            OpCode::Question(text, id) => {
                let out = interpolate(&text, &self.store);
                self.frames.push(rest);
                self.mode = SessionMode::AwaitLine(id, Vec::new());
                proof {
                    assert(spec_frames(self.frames@) =~= fs2);
                    lemma_spec_frames(self.frames@);
                    assert(dom0.subset_of(dom0.insert(id as nat)));
                    assert forall|k: int| 0 <= k < fs2.len() implies spec_prog_valid(
                        #[trigger] fs2[k], dom0.insert(id as nat)) by {
                        if k < fs2.len() - 1 {
                            assert(fs2[k] == fs_cur[k]);
                            lemma_prog_valid_monotone(fs2[k], dom0, dom0.insert(id as nat));
                        } else {
                            assert(fs2[k] == spec_nodes(rest@));
                            assert(scope_after(fs_cur.last()[0], dom0) == dom0.insert(id as nat));
                        }
                    }
                }
                Some(out)
            },
            OpCode::Branch(text, opts) => {
                let out = interpolate(&text, &self.store);
                self.frames.push(rest);
                self.mode = SessionMode::AwaitChoice(opts, 0);
                proof {
                    assert(spec_frames(self.frames@) =~= fs2);
                    lemma_spec_frames(self.frames@);
                    assert forall|k: int| 0 <= k < fs2.len() implies spec_prog_valid(
                        #[trigger] fs2[k], dom0) by {
                        if k < fs2.len() - 1 {
                            assert(fs2[k] == fs_cur[k]);
                        } else {
                            assert(fs2[k] == spec_nodes(rest@));
                        }
                    }
                }
                Some(out)
            },
        }
    }

    /// Applies one input event. An acknowledging key readies the next
    /// node; line editing accumulates an answer until submit stores it
    /// under the question's slot; branch navigation moves the clamped
    /// cursor until confirm schedules the selected option's body.
    pub fn feed(&mut self, ev: InputEvent)
        requires
            old(self).inv(),
        ensures
            final(self).inv(),
            final(self)@ == spec_feed(old(self)@, ev),
    {
        let mut m = SessionMode::Ready;
        core::mem::swap(&mut self.mode, &mut m);
        match m {
            SessionMode::Ready => {
                self.mode = SessionMode::Ready;
            },
            SessionMode::Done => {
                self.mode = SessionMode::Done;
            },
            SessionMode::AwaitAck => {
                self.mode = SessionMode::Ready;
            },
            SessionMode::AwaitLine(slot, mut buffer) => {
                match ev {
                    InputEvent::Character(c) => {
                        buffer.push(c);
                        self.mode = SessionMode::AwaitLine(slot, buffer);
                    },
                    InputEvent::Backspace => {
                        if buffer.len() > 0 {
                            buffer.pop();
                        }
                        self.mode = SessionMode::AwaitLine(slot, buffer);
                    },
                    InputEvent::Submit => {
                        let text = string_from_chars(&buffer);
                        let ghost dom_before = self.store@.dom();
                        self.store.insert(slot, text);
                        self.mode = SessionMode::Ready;
                        proof {
                            assert(self.store@.dom() =~= dom_before.insert(slot as nat));
                        }
                    },
                    _ => {
                        self.mode = SessionMode::AwaitLine(slot, buffer);
                    },
                }
            },
            SessionMode::AwaitChoice(mut options, cursor) => {
                match ev {
                    InputEvent::Up => {
                        let c2 = if cursor > 0 {
                            cursor - 1
                        } else {
                            0
                        };
                        self.mode = SessionMode::AwaitChoice(options, c2);
                    },
                    InputEvent::Down => {
                        proof {
                            lemma_spec_options(options@);
                            assert(old(self)@.mode == SpecSessionMode::AwaitChoice {
                                options: spec_options(options@),
                                cursor: cursor as int,
                            });
                            assert((cursor as int) < spec_options(options@).len());
                        }
                        let olen = options.len();
                        let c2 = if cursor + 1 >= olen {
                            olen - 1
                        } else {
                            cursor + 1
                        };
                        self.mode = SessionMode::AwaitChoice(options, c2);
                    },
                    InputEvent::Submit => {
                        let ghost opts0 = options@;
                        proof {
                            lemma_spec_options(opts0);
                            assert(old(self)@.mode == SpecSessionMode::AwaitChoice {
                                options: spec_options(opts0),
                                cursor: cursor as int,
                            });
                            assert((cursor as int) < spec_options(opts0).len());
                        }
                        let b = options.swap_remove(cursor);
                        let ghost fs_before = self.frames@;
                        let Branch { option: _, handler } = b;
                        self.frames.push(handler);
                        self.mode = SessionMode::Ready;
                        proof {
                            lemma_spec_frames_push(fs_before, handler);
                            lemma_spec_frames(self.frames@);
                            let opts_m = old(self)@.mode->options;
                            let cur_m = old(self)@.mode->cursor;
                            assert(b == opts0[cursor as int]);
                            assert(spec_options(opts0)[cursor as int] == opts0[cursor as int]@);
                            assert(spec_nodes(handler@) == opts_m[cur_m].body);
                            assert forall|k: int| 0 <= k < self.frames@.len() implies
                                spec_prog_valid(#[trigger] spec_frames(self.frames@)[k],
                                    self.store@.dom()) by {
                                if k < self.frames@.len() - 1 {
                                    assert(spec_frames(self.frames@)[k]
                                        == spec_frames(fs_before)[k]);
                                }
                            }
                        }
                    },
                    _ => {
                        self.mode = SessionMode::AwaitChoice(options, cursor);
                    },
                }
            },
        }
    }
}

/// The cursor after `n` repetitions of the same navigation event.
pub open spec fn spec_choice_iter(cursor: int, len: int, ev: InputEvent, n: nat) -> int
    decreases n,
{
    if n == 0 {
        cursor
    } else {
        spec_choice_step(spec_choice_iter(cursor, len, ev, (n - 1) as nat), len, ev)
    }
}

/// Law: with the cursor on the first option, any number of "move up"
/// events leaves it on the first option — no wraparound, no negative
/// index.
pub proof fn lemma_choice_up_clamped(len: int, n: nat)
    ensures
        spec_choice_iter(0, len, InputEvent::Up, n) == 0,
    decreases n,
{
    if n > 0 {
        lemma_choice_up_clamped(len, (n - 1) as nat);
    }
}

/// Law: with the cursor on the last option, any number of "move down"
/// events leaves it on the last option.
pub proof fn lemma_choice_down_clamped(len: int, n: nat)
    requires
        len >= 1,
    ensures
        spec_choice_iter(len - 1, len, InputEvent::Down, n) == len - 1,
    decreases n,
{
    if n > 0 {
        lemma_choice_down_clamped(len, (n - 1) as nat);
    }
}

/// A literal in which no `$` is followed by a digit: it holds dollar
/// signs only as literal text, never as a reference.
pub open spec fn no_refs(text: Seq<char>) -> bool {
    forall|i: int| 0 <= i < text.len() && #[trigger] text[i] == '$' ==> digit_run_end(text, i + 1)
        == i + 1
}

proof fn lemma_literal_dollar_from(text: Seq<char>, i: int, scope: Set<nat>, m: Map<nat, Seq<char>>)
    requires
        0 <= i <= text.len(),
        no_refs(text),
    ensures
        spec_validate_from(text, i, scope) is None,
        spec_interp_from(text, i, m) == text.subrange(i, text.len() as int),
    decreases text.len() - i,
{
    if i < text.len() {
        lemma_literal_dollar_from(text, i + 1, scope, m);
        assert(seq![text[i]] + text.subrange(i + 1, text.len() as int) =~= text.subrange(
            i, text.len() as int));
    } else {
        assert(text.subrange(i, text.len() as int) =~= Seq::<char>::empty());
    }
}

/// Law: a literal whose every `$` is not followed by a digit contains no
/// references — it validates in any scope, and it interpolates to itself
/// unchanged, whatever the store holds.
pub proof fn lemma_literal_dollar(text: Seq<char>, scope: Set<nat>, m: Map<nat, Seq<char>>)
    requires
        no_refs(text),
    ensures
        spec_validate(text, scope) is None,
        spec_interp(text, m) == text,
{
    lemma_literal_dollar_from(text, 0, scope, m);
    assert(text.subrange(0, text.len() as int) =~= text);
}

/// The work one node can still cause: two units for itself, plus, for a
/// branch, the work of every option body (and one unit per option).
pub open spec fn node_weight(n: SpecNode) -> nat
    decreases n, 1int,
{
    match n {
        SpecNode::Info(_) => 2,
        SpecNode::Question(_, _) => 2,
        SpecNode::Branch(_, opts) => 2 + opts_weight(opts),
    }
}

/// The work a list of options can still cause.
pub open spec fn opts_weight(opts: Seq<SpecOption>) -> nat
    decreases opts, 2int,
{
    if opts.len() == 0 {
        0
    } else {
        1 + prog_weight(opts[0].body) + opts_weight(opts.subrange(1, opts.len() as int))
    }
}

/// The work a node sequence can still cause.
pub open spec fn prog_weight(ns: Seq<SpecNode>) -> nat
    decreases ns, 2int,
{
    if ns.len() == 0 {
        0
    } else {
        node_weight(ns[0]) + prog_weight(ns.subrange(1, ns.len() as int))
    }
}

/// The work pending on the whole frame stack.
pub open spec fn frames_weight(fs: Seq<Seq<SpecNode>>) -> nat
    decreases fs.len(),
{
    if fs.len() == 0 {
        0
    } else {
        frames_weight(fs.drop_last()) + prog_weight(fs.last())
    }
}

/// The work held by the awaited-input state.
pub open spec fn mode_weight(m: SpecSessionMode) -> nat {
    match m {
        SpecSessionMode::Ready => 0,
        SpecSessionMode::Done => 0,
        SpecSessionMode::AwaitAck => 1,
        SpecSessionMode::AwaitLine { .. } => 1,
        SpecSessionMode::AwaitChoice { options, .. } => 1 + opts_weight(options),
    }
}

/// A finite measure of everything the session can still do.
pub open spec fn session_measure(s: SpecSession) -> nat {
    frames_weight(s.frames) + mode_weight(s.mode)
}

/// Dropping exhausted frames changes no pending work.
proof fn lemma_pop_empty_weight(fs: Seq<Seq<SpecNode>>)
    ensures
        frames_weight(spec_pop_empty(fs)) == frames_weight(fs),
    decreases fs.len(),
{
    if fs.len() > 0 && fs.last().len() == 0 {
        lemma_pop_empty_weight(fs.drop_last());
    }
}

/// Pushing a frame adds exactly its own pending work.
proof fn lemma_frames_weight_push(fs: Seq<Seq<SpecNode>>, f: Seq<SpecNode>)
    ensures
        frames_weight(fs.push(f)) == frames_weight(fs) + prog_weight(f),
{
    assert(fs.push(f).drop_last() =~= fs);
    assert(fs.push(f).last() == f);
}

/// Each option contributes strictly less than the whole option list.
proof fn lemma_opts_weight_elem(opts: Seq<SpecOption>, k: int)
    requires
        0 <= k < opts.len(),
    ensures
        prog_weight(opts[k].body) + 1 <= opts_weight(opts),
    decreases k,
{
    if k > 0 {
        lemma_opts_weight_elem(opts.subrange(1, opts.len() as int), k - 1);
        assert(opts.subrange(1, opts.len() as int)[k - 1] == opts[k]);
    }
}

/// Law (termination, first half): a step from a ready session either
/// halts or strictly decreases the session's finite measure of pending
/// work — the parsed tree has no loops or backward jumps, so execution
/// cannot run forever.
pub proof fn lemma_advance_decreases(s: SpecSession)
    requires
        s.mode is Ready,
    ensures
        spec_advance(s).0.mode is Done || session_measure(spec_advance(s).0) < session_measure(s),
{
    let fs = spec_pop_empty(s.frames);
    lemma_pop_empty_weight(s.frames);
    if fs.len() > 0 {
        let top = fs.last();
        let rest = top.subrange(1, top.len() as int);
        lemma_pop_empty(s.frames);
        assert(top.len() > 0);
        assert(prog_weight(top) == node_weight(top[0]) + prog_weight(rest));
        lemma_frames_weight_push(fs.drop_last(), rest);
    }
}

/// Law (termination, second half): no input event increases the
/// session's measure; confirming a branch selection strictly decreases
/// it, because the unchosen options' work is discarded.
pub proof fn lemma_feed_never_increases(s: SpecSession, ev: InputEvent)
    requires
        session_inv(s),
    ensures
        session_measure(spec_feed(s, ev)) <= session_measure(s),
{
    match s.mode {
        SpecSessionMode::AwaitChoice { options, cursor } => {
            if ev is Submit {
                lemma_opts_weight_elem(options, cursor);
                lemma_frames_weight_push(s.frames, options[cursor].body);
            }
        },
        _ => {},
    }
}

} // verus!
