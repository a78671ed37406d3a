use vstd::prelude::*;
use crate::instruction::{Instruction, VmError, matched};

verus! {

/// The eight characters that carry meaning; every other character is a comment.
pub open spec fn is_command(c: char) -> bool {
    c == '>' || c == '<' || c == '+' || c == '-' || c == '.' || c == ',' || c == '[' || c == ']'
}

/// The command characters of `s`, in order.
pub open spec fn commands(s: Seq<char>) -> Seq<char>
    decreases s.len(),
{
    if s.len() == 0 {
        Seq::empty()
    } else if is_command(s.last()) {
        commands(s.drop_last()).push(s.last())
    } else {
        commands(s.drop_last())
    }
}

/// How a character changes the bracket depth.
pub open spec fn delta(c: char) -> int {
    if c == '[' {
        1
    } else if c == ']' {
        -1
    } else {
        0
    }
}

/// Opens minus closes among `t[lo..hi]`.
pub open spec fn net(t: Seq<char>, lo: int, hi: int) -> int
    decreases hi - lo,
{
    if hi <= lo {
        0
    } else {
        net(t, lo, hi - 1) + delta(t[hi - 1])
    }
}

/// `t[lo..hi]` closes exactly what it opens, and never closes more than it
/// has opened so far.
pub open spec fn balanced(t: Seq<char>, lo: int, hi: int) -> bool {
    &&& net(t, lo, hi) == 0
    &&& forall|k: int| lo <= k <= hi ==> #[trigger] net(t, lo, k) >= 0
}

/// The character that an instruction stands for.
pub open spec fn denotes(c: char, i: Instruction) -> bool {
    match i {
        Instruction::MoveRight => c == '>',
        Instruction::MoveLeft => c == '<',
        Instruction::Increment => c == '+',
        Instruction::Decrement => c == '-',
        Instruction::Output => c == '.',
        Instruction::Input => c == ',',
        Instruction::LoopOpen(_) => c == '[',
        Instruction::LoopClose(_) => c == ']',
    }
}

/// `p` is the program for the command sequence `t`: one instruction per
/// command, and each `[` linked to the `]` that closes the balanced stretch
/// right after it.
pub open spec fn resolves(t: Seq<char>, p: Seq<Instruction>) -> bool {
    &&& p.len() == t.len()
    &&& forall|k: int| 0 <= k < p.len() ==> denotes(t[k], #[trigger] p[k])
    &&& forall|k: int|
        0 <= k < p.len() ==> match #[trigger] p[k] {
            Instruction::LoopOpen(j) => balanced(t, k + 1, j as int),
            _ => true,
        }
    &&& matched(p)
}

/// A decoded program: its loop markers are always linked in pairs.
#[derive(Debug, PartialEq, Eq)]
pub struct Program {
    instructions: Vec<Instruction>,
}

impl View for Program {
    type V = Seq<Instruction>;

    closed spec fn view(&self) -> Seq<Instruction> {
        self.instructions@
    }
}

impl Program {
    #[verifier::type_invariant]
    spec fn linked(self) -> bool {
        matched(self.instructions@)
    }

    /// The number of instructions.
    pub fn len(&self) -> (n: usize)
        ensures
            n == self@.len(),
    {
        self.instructions.len()
    }

    /// The instructions, in order.
    pub fn instructions(&self) -> (s: &[Instruction])
        ensures
            s@ == self@,
    {
        self.instructions.as_slice()
    }

    /// Gives up the instructions, which stay linked in pairs.
    pub fn into_instructions(self) -> (v: Vec<Instruction>)
        ensures
            v@ == self@,
            matched(v@),
    {
        proof {
            use_type_invariant(&self);
        }
        self.instructions
    }
}

proof fn lemma_net_prefix(t: Seq<char>, u: Seq<char>, lo: int, hi: int)
    requires
        0 <= lo,
        hi <= t.len() <= u.len(),
        t == u.subrange(0, t.len() as int),
    ensures
        net(t, lo, hi) == net(u, lo, hi),
    decreases hi - lo,
{
    if hi > lo {
        assert(t[hi - 1] == u[hi - 1]);
        lemma_net_prefix(t, u, lo, hi - 1);
    }
}

proof fn lemma_net_split(t: Seq<char>, lo: int, mid: int, hi: int)
    requires
        lo <= mid <= hi,
    ensures
        net(t, lo, hi) == net(t, lo, mid) + net(t, mid, hi),
    decreases hi - mid,
{
    if hi > mid {
        lemma_net_split(t, lo, mid, hi - 1);
    }
}

proof fn lemma_commands_prefix(s: Seq<char>, a: int)
    requires
        0 <= a <= s.len(),
    ensures
        commands(s.subrange(0, a)).len() <= commands(s).len(),
        commands(s.subrange(0, a)) == commands(s).subrange(0, commands(s.subrange(0, a)).len() as int),
    decreases s.len(),
{
    if a == s.len() {
        assert(s.subrange(0, a) =~= s);
    } else {
        let s2 = s.drop_last();
        assert(s2.subrange(0, a) =~= s.subrange(0, a));
        lemma_commands_prefix(s2, a);
        let c = commands(s2.subrange(0, a));
        assert(c =~= commands(s).subrange(0, c.len() as int));
    }
}

proof fn lemma_net_push(t: Seq<char>, c: char)
    ensures
        forall|lo: int, hi: int| 0 <= lo && hi <= t.len() ==> #[trigger] net(t.push(c), lo, hi) == net(t, lo, hi),
        forall|lo: int|
            0 <= lo <= t.len() ==> #[trigger] net(t.push(c), lo, t.len() + 1int) == net(t, lo, t.len() as int)
                + delta(c),
{
    let u = t.push(c);
    assert(t =~= u.subrange(0, t.len() as int));
    assert forall|lo: int, hi: int| 0 <= lo && hi <= t.len() implies #[trigger] net(u, lo, hi) == net(t, lo, hi) by {
        lemma_net_prefix(t, u, lo, hi);
    }
    assert forall|lo: int| 0 <= lo <= t.len() implies #[trigger] net(u, lo, t.len() + 1int) == net(t, lo, t.len() as int) + delta(c) by {
        lemma_net_prefix(t, u, lo, t.len() as int);
    }
}

proof fn lemma_balanced_push(t: Seq<char>, c: char, lo: int, hi: int)
    requires
        0 <= lo,
        hi <= t.len(),
        balanced(t, lo, hi),
    ensures
        balanced(t.push(c), lo, hi),
{
    lemma_net_push(t, c);
}

/// One command of the decoding loop keeps the loop's invariant about
/// bracket links.
proof fn lemma_decode_step(
    t0: Seq<char>,
    c: char,
    ins0: Seq<Instruction>,
    st0: Seq<usize>,
    ins: Seq<Instruction>,
    st: Seq<usize>,
)
    requires
        ins0.len() == t0.len(),
        forall|q: int|
            0 <= q < st0.len() ==> #[trigger] st0[q] < t0.len() && ins0[st0[q] as int]
                == Instruction::LoopOpen(0),
        forall|q: int|
            0 <= q < st0.len() ==> net(t0, #[trigger] st0[q] + 1, t0.len() as int) == st0.len() - q
                - 1,
        forall|q: int, k: int|
            0 <= q < st0.len() && #[trigger] st0[q] + 1 <= k <= t0.len() ==> #[trigger] net(
                t0,
                st0[q] + 1,
                k,
            ) >= 0,
        forall|a: int, b: int| 0 <= a < b < st0.len() ==> st0[a] < st0[b],
        forall|k: int|
            0 <= k < t0.len() && #[trigger] ins0[k] == Instruction::LoopOpen(0) ==> st0.contains(
                k as usize,
            ),
        forall|k: int|
            0 <= k < t0.len() ==> match #[trigger] ins0[k] {
                Instruction::LoopOpen(j) => j == 0 || (k < j < t0.len() && ins0[j as int]
                    == Instruction::LoopClose(k as usize) && balanced(t0, k + 1, j as int)),
                Instruction::LoopClose(j) => j < k && ins0[j as int] == Instruction::LoopOpen(
                    k as usize,
                ),
                _ => true,
            },
        c == '[' ==> st == st0.push(t0.len() as usize) && ins == ins0.push(
            Instruction::LoopOpen(0),
        ),
        c == ']' ==> st0.len() > 0 && st == st0.drop_last() && ins == ins0.update(
            st0.last() as int,
            Instruction::LoopOpen(t0.len() as usize),
        ).push(Instruction::LoopClose(st0.last())),
        c != '[' && c != ']' ==> st == st0 && ins.len() == ins0.len() + 1 && ins.drop_last() == ins0
            && !(ins.last() is LoopOpen) && !(ins.last() is LoopClose),
        t0.len() < usize::MAX,
    ensures
        forall|k: int|
            0 <= k < ins.len() && #[trigger] ins[k] == Instruction::LoopOpen(0) ==> st.contains(
                k as usize,
            ),
        forall|k: int|
            0 <= k < ins.len() ==> match #[trigger] ins[k] {
                Instruction::LoopOpen(j) => j == 0 || (k < j < ins.len() && ins[j as int]
                    == Instruction::LoopClose(k as usize) && balanced(t0.push(c), k + 1, j as int)),
                Instruction::LoopClose(j) => j < k && ins[j as int] == Instruction::LoopOpen(
                    k as usize,
                ),
                _ => true,
            },
{
    let n = t0.len() as int;
    let t = t0.push(c);
    lemma_net_push(t0, c);
    if c != '[' && c != ']' {
        assert forall|k: int| 0 <= k < n implies #[trigger] ins[k] == ins0[k] by {
            assert(ins.drop_last()[k] == ins[k]);
        }
    }
    let open = st0.last();
    assert forall|k: int|
        0 <= k < ins.len() && #[trigger] ins[k] == Instruction::LoopOpen(0) implies st.contains(
        k as usize,
    ) by {
        if c == '[' && k == n {
            assert(st[st.len() - 1] == k as usize);
        } else {
            if c != '[' && c != ']' {
                assert(ins[k] == ins0[k]);
            }
            assert(ins0[k] == Instruction::LoopOpen(0));
            let q = choose|q: int| 0 <= q < st0.len() && st0[q] == k as usize;
            if c == '[' {
                assert(st[q] == k as usize);
            } else if c == ']' {
                assert(q != st0.len() - 1);
                assert(st[q] == k as usize);
            }
        }
    }
    assert forall|k: int| 0 <= k < ins.len() implies match #[trigger] ins[k] {
        Instruction::LoopOpen(j) => j == 0 || (k < j < ins.len() && ins[j as int]
            == Instruction::LoopClose(k as usize) && balanced(t, k + 1, j as int)),
        Instruction::LoopClose(j) => j < k && ins[j as int] == Instruction::LoopOpen(k as usize),
        _ => true,
    } by {
        if c != '[' && c != ']' && k < n {
            assert(ins[k] == ins0[k]);
        }
        if c == ']' && k == open as int {
            let q = st0.len() - 1;
            assert(st0[q] == open);
            assert(net(t0, open + 1, n) == 0);
            assert forall|m: int| open + 1 <= m <= n implies #[trigger] net(t, open + 1, m) >= 0 by {
                assert(net(t0, st0[q] + 1, m) >= 0);
            }
            assert(balanced(t, open + 1, n));
        } else if k < n {
            match ins0[k] {
                Instruction::LoopOpen(j) => {
                    if j != 0 {
                        lemma_balanced_push(t0, c, k + 1, j as int);
                        if c != '[' && c != ']' {
                            assert(ins[j as int] == ins0[j as int]);
                        }
                    }
                },
                Instruction::LoopClose(j) => {
                    if c != '[' && c != ']' {
                        assert(ins[j as int] == ins0[j as int]);
                    }
                },
                _ => {},
            }
        }
    }
}

/// A balanced stretch right after an open bracket ends at one place only:
/// its closing bracket.
proof fn lemma_close_unique(t: Seq<char>, k: int, j1: int, j2: int)
    requires
        k < j1 < j2 < t.len(),
        t[j1] == ']',
        balanced(t, k + 1, j1),
    ensures
        !balanced(t, k + 1, j2),
{
    assert(net(t, k + 1, j1 + 1) < 0);
}

/// A source text has one program at most: decoding is deterministic, so
/// decoding the same text twice yields the same program.
pub proof fn lemma_decode_deterministic(
    text: Seq<char>,
    p1: Seq<Instruction>,
    p2: Seq<Instruction>,
)
    requires
        resolves(commands(text), p1),
        resolves(commands(text), p2),
    ensures
        p1 == p2,
{
    let t = commands(text);
    assert forall|k: int| 0 <= k < p1.len() implies #[trigger] p1[k] == p2[k] by {
        assert(denotes(t[k], p1[k]));
        assert(denotes(t[k], p2[k]));
        if let Instruction::LoopOpen(j1) = p1[k] {
            if let Instruction::LoopOpen(j2) = p2[k] {
                assert(denotes(t[j1 as int], p1[j1 as int]));
                assert(denotes(t[j2 as int], p2[j2 as int]));
                if j1 < j2 {
                    lemma_close_unique(t, k, j1 as int, j2 as int);
                } else if j2 < j1 {
                    lemma_close_unique(t, k, j2 as int, j1 as int);
                }
            }
        }
        if let Instruction::LoopClose(j1) = p1[k] {
            if let Instruction::LoopClose(j2) = p2[k] {
                assert(p1[j1 as int] == Instruction::LoopOpen(k as usize));
                assert(p2[j2 as int] == Instruction::LoopOpen(k as usize));
                assert(balanced(t, j1 + 1, k));
                assert(balanced(t, j2 + 1, k));
                let (a, b) = if j1 < j2 { (j1 as int, j2 as int) } else { (j2 as int, j1 as int) };
                if a < b {
                    // Both `[` at a and at b would be closed by the `]` at k.
                    assert(denotes(t[b], p1[b]) || denotes(t[b], p2[b]));
                    assert(balanced(t, a + 1, k));
                    assert(balanced(t, b + 1, k));
                    assert(t[b] == '[');
                    lemma_net_split(t, a + 1, b + 1, k);
                    assert(net(t, a + 1, b) >= 0);
                }
            }
        }
    }
    assert(p1 =~= p2);
}

/// Translates source text into a program, linking each `[` to its `]`.
/// Fails exactly when the brackets of the text are not balanced.
pub fn decode(code: &str) -> (r: Result<Program, VmError>)
    ensures
        match r {
            Ok(p) => balanced(commands(code@), 0, commands(code@).len() as int) && resolves(
                commands(code@),
                p@,
            ),
            Err(e) => e == VmError::MismatchedBracket && !balanced(
                commands(code@),
                0,
                commands(code@).len() as int,
            ),
        },
{
    let mut instructions: Vec<Instruction> = Vec::new();
    let mut open_stack: Vec<usize> = Vec::new();
    let ghost mut t: Seq<char> = Seq::empty();
    for c in it: code.chars()
        invariant
            it.seq() == code@,
            t == commands(code@.subrange(0, it.index() as int)),
            instructions@.len() == t.len(),
            forall|k: int| 0 <= k < t.len() ==> denotes(t[k], #[trigger] instructions@[k]),
            open_stack@.len() == net(t, 0, t.len() as int),
            forall|k: int| 0 <= k <= t.len() ==> #[trigger] net(t, 0, k) >= 0,
            forall|a: int, b: int|
                0 <= a < b < open_stack@.len() ==> open_stack@[a] < open_stack@[b],
            forall|q: int|
                0 <= q < open_stack@.len() ==> {
                    &&& #[trigger] open_stack@[q] < t.len()
                    &&& instructions@[open_stack@[q] as int] == Instruction::LoopOpen(0)
                    &&& net(t, open_stack@[q] + 1, t.len() as int) == open_stack@.len() - q - 1
                },
            forall|q: int, k: int|
                0 <= q < open_stack@.len() && #[trigger] open_stack@[q] + 1 <= k <= t.len()
                    ==> #[trigger] net(t, open_stack@[q] + 1, k) >= 0,
            forall|k: int|
                0 <= k < t.len() && #[trigger] instructions@[k] == Instruction::LoopOpen(0)
                    ==> open_stack@.contains(k as usize),
            forall|k: int|
                0 <= k < t.len() ==> match #[trigger] instructions@[k] {
                    Instruction::LoopOpen(j) => j == 0 || (k < j < t.len()
                        && instructions@[j as int] == Instruction::LoopClose(k as usize)
                        && balanced(t, k + 1, j as int)),
                    Instruction::LoopClose(j) => j < k && instructions@[j as int]
                        == Instruction::LoopOpen(k as usize),
                    _ => true,
                },
    {
        let ghost idx = it.index() as int;
        proof {
            assert(code@.subrange(0, idx + 1).drop_last() =~= code@.subrange(0, idx));
            lemma_net_push(t, c);
        }
        let ghost t0 = t;
        let ghost ins0 = instructions@;
        let ghost st0 = open_stack@;
        let i = instructions.len();
        let next: Option<Instruction> = match c {
            '>' => Some(Instruction::MoveRight),
            '<' => Some(Instruction::MoveLeft),
            '+' => Some(Instruction::Increment),
            '-' => Some(Instruction::Decrement),
            '.' => Some(Instruction::Output),
            ',' => Some(Instruction::Input),
            '[' => {
                open_stack.push(i);
                Some(Instruction::LoopOpen(0))
            },
            ']' => {
                match open_stack.pop() {
                    Some(open) => {
                        instructions.set(open, Instruction::LoopOpen(i));
                        Some(Instruction::LoopClose(open))
                    },
                    None => {
                        proof {
                            let whole = commands(code@);
                            let seen = t.push(c);
                            lemma_commands_prefix(code@, idx + 1);
                            lemma_net_prefix(seen, whole, 0, seen.len() as int);
                            assert(net(whole, 0, seen.len() as int) < 0);
                        }
                        return Err(VmError::MismatchedBracket);
                    },
                }
            },
            _ => None,
        };
        if let Some(instruction) = next {
            instructions.push(instruction);
            proof {
                t = t.push(c);
                if c != '[' && c != ']' {
                    assert(instructions@.drop_last() =~= ins0);
                }
                assert(instructions.len() <= usize::MAX);
                lemma_decode_step(t0, c, ins0, st0, instructions@, open_stack@);
            }
        }
    }
    proof {
        assert(code@.subrange(0, code@.len() as int) =~= code@);
    }
    if open_stack.len() > 0 {
        return Err(VmError::MismatchedBracket);
    }
    proof {
        assert forall|k: int| 0 <= k < instructions@.len() implies #[trigger] instructions@[k]
            != Instruction::LoopOpen(0) by {
            if instructions@[k] == Instruction::LoopOpen(0) {
                assert(open_stack@.contains(k as usize));
            }
        }
        assert(instructions.len() <= usize::MAX);
        assert(matched(instructions@));
    }
    Ok(Program { instructions })
}

} // verus!
