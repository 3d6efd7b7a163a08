//! Comments out of a source file before it is parsed: each comment becomes
//! blanks, so that every other character keeps its byte position.

use vstd::prelude::*;
use vstd::std_specs::iter::IteratorSpec;

verus! {

/// Where the reading of a file stands after a character.
#[derive(Clone, Copy, PartialEq, Eq, Structural)]
pub enum Scan {
    /// Outside any comment.
    Code,
    /// Just after a `/` outside any comment, which is held back.
    Slash,
    /// Inside a `//` comment.
    Line,
    /// Inside a `/* */` comment.
    Block,
    /// Inside a `/* */` comment, just after a `*`, which is held back.
    BlockStar,
}

/// The number of bytes of `c` in UTF-8.
pub open spec fn utf8_width(c: char) -> nat {
    if (c as u32) < 0x80 {
        1
    } else if (c as u32) < 0x800 {
        2
    } else if (c as u32) < 0x10000 {
        3
    } else {
        4
    }
}

/// The number of bytes of `s` in UTF-8.
pub open spec fn utf8_len(s: Seq<char>) -> nat
    decreases s.len(),
{
    if s.len() == 0 {
        0
    } else {
        utf8_len(s.drop_last()) + utf8_width(s.last())
    }
}

/// `n` blanks.
pub open spec fn blanks(n: nat) -> Seq<char> {
    Seq::new(n, |i: int| ' ')
}

/// One step of the reading: from `state`, the character `c` at index `i`
/// gives the next state, what is written, and where the last block comment
/// opened (one past the index of its `*`).
pub open spec fn step(state: Scan, c: char, i: nat, opened: nat) -> (Scan, Seq<char>, nat) {
    match state {
        Scan::Code => if c == '/' {
            (Scan::Slash, Seq::empty(), opened)
        } else {
            (Scan::Code, seq![c], opened)
        },
        Scan::Slash => if c == '/' {
            (Scan::Line, blanks(2), opened)
        } else if c == '*' {
            (Scan::Block, blanks(2), i + 1)
        } else {
            (Scan::Code, seq!['/', c], opened)
        },
        Scan::Line => if c == '\n' {
            (Scan::Code, seq![c], opened)
        } else {
            (Scan::Line, blanks(utf8_width(c)), opened)
        },
        Scan::Block => if c == '*' {
            (Scan::BlockStar, Seq::empty(), opened)
        } else {
            (Scan::Block, blanks(utf8_width(c)), opened)
        },
        Scan::BlockStar => if c == '*' {
            (Scan::BlockStar, blanks(1), opened)
        } else if c == '/' {
            (Scan::Code, blanks(2), opened)
        } else {
            (Scan::Block, blanks(1 + utf8_width(c)), opened)
        },
    }
}

/// The reading of all of `s`: what is written, the state after its last
/// character and where the last block comment opened.
pub open spec fn scan(s: Seq<char>) -> (Seq<char>, Scan, nat)
    decreases s.len(),
{
    if s.len() == 0 {
        (Seq::empty(), Scan::Code, 0)
    } else {
        let (out, state, opened) = scan(s.drop_last());
        let (next, written, opened2) = step(state, s.last(), (s.len() - 1) as nat, opened);
        (out + written, next, opened2)
    }
}

/// A `/` held back at the end of the file is written as it is.
pub open spec fn flushed(out: Seq<char>, state: Scan) -> Seq<char> {
    if state == Scan::Slash {
        out.push('/')
    } else {
        out
    }
}

/// A block comment that the file leaves open.
#[derive(Clone, Copy, PartialEq, Eq, Structural, Debug)]
pub struct UnclosedComment {
    pub file_id: usize,
    /// One past the index, in characters, of the `*` that opens it.
    pub location: usize,
}

/// What preprocessing gives for the text `s` of file `file_id`: the text
/// with its comments blanked, or the block comment left open.
pub open spec fn spec_preprocess(s: Seq<char>, file_id: usize) -> Result<Seq<char>, UnclosedComment> {
    let (out, state, opened) = scan(s);
    if state == Scan::Block || state == Scan::BlockStar {
        Err(UnclosedComment { file_id, location: opened as usize })
    } else {
        Ok(flushed(out, state))
    }
}

/// Appends `c` to `s`.
#[verifier::external_body]
fn push_char(s: &mut String, c: char)
    ensures
        final(s)@ == old(s)@.push(c),
{
    s.push(c);
}

/// The number of bytes of `c` in UTF-8.
fn width_of(c: char) -> (res: usize)
    ensures
        res == utf8_width(c),
        1 <= res <= 4,
{
    let v = c as u32;
    if v < 0x80 {
        1
    } else if v < 0x800 {
        2
    } else if v < 0x10000 {
        3
    } else {
        4
    }
}

/// Appends `n` blanks to `s`.
fn push_blanks(s: &mut String, n: usize)
    ensures
        final(s)@ == old(s)@ + blanks(n as nat),
{
    let mut k: usize = 0;
    while k < n
        invariant
            k <= n,
            s@ == old(s)@ + blanks(k as nat),
        decreases n - k,
    {
        push_char(s, ' ');
        k = k + 1;
        proof {
            assert(s@ =~= old(s)@ + blanks(k as nat));
        }
    }
}

/// Blanks the comments of the text `expr` of file `file_id`: each character
/// of a comment becomes as many blanks as it has bytes, and the newline that
/// ends a `//` comment stays. Fails on a block comment left open.
pub fn preprocess(expr: &str, file_id: usize) -> (res: Result<String, UnclosedComment>)
    requires
        expr@.len() < usize::MAX,
    ensures
        match spec_preprocess(expr@, file_id) {
            Ok(t) => res matches Ok(s) && s@ == t,
            Err(e) => res == Err::<String, UnclosedComment>(e),
        },
{
    broadcast use vstd::string::axiom_spec_iter, vstd::string::next_postcondition;

    let mut pp = String::new();
    let mut state = Scan::Code;
    let mut opened: usize = 0;
    let mut i: usize = 0;
    let mut it = expr.chars();
    loop
        invariant
            i <= expr@.len(),
            expr@.len() < usize::MAX,
            it.remaining() == expr@.subrange(i as int, expr@.len() as int),
            scan(expr@.subrange(0, i as int)) == (pp@, state, opened as nat),
            opened <= i,
        ensures
            i == expr@.len(),
            scan(expr@) == (pp@, state, opened as nat),
        decreases expr@.len() - i,
    {
        let ghost prefix = expr@.subrange(0, i as int);
        let next = it.next();
        match next {
            None => {
                proof {
                    assert(expr@.subrange(0, i as int) =~= expr@);
                }
                break;
            },
            Some(c) => {
                proof {
                    assert(c == expr@[i as int]);
                    assert(expr@.subrange(0, i + 1).drop_last() =~= prefix);
                }
                let ghost before = pp@;
                match state {
                    Scan::Code => {
                        if c == '/' {
                            state = Scan::Slash;
                        } else {
                            push_char(&mut pp, c);
                        }
                    },
                    Scan::Slash => {
                        if c == '/' {
                            state = Scan::Line;
                            push_blanks(&mut pp, 2);
                        } else if c == '*' {
                            state = Scan::Block;
                            opened = i + 1;
                            push_blanks(&mut pp, 2);
                        } else {
                            state = Scan::Code;
                            push_char(&mut pp, '/');
                            push_char(&mut pp, c);
                        }
                    },
                    Scan::Line => {
                        if c == '\n' {
                            state = Scan::Code;
                            push_char(&mut pp, c);
                        } else {
                            let w = width_of(c);
                            push_blanks(&mut pp, w);
                        }
                    },
                    Scan::Block => {
                        if c == '*' {
                            state = Scan::BlockStar;
                        } else {
                            let w = width_of(c);
                            push_blanks(&mut pp, w);
                        }
                    },
                    Scan::BlockStar => {
                        if c == '*' {
                            push_blanks(&mut pp, 1);
                        } else if c == '/' {
                            state = Scan::Code;
                            push_blanks(&mut pp, 2);
                        } else {
                            state = Scan::Block;
                            let w = width_of(c);
                            push_blanks(&mut pp, 1 + w);
                        }
                    },
                }
                proof {
                    assert(pp@ =~= before + step(scan(prefix).1, c, i as nat, scan(prefix).2).1);
                }
                i = i + 1;
            },
        }
    }
    if state == Scan::Block || state == Scan::BlockStar {
        return Err(UnclosedComment { file_id, location: opened });
    }
    if state == Scan::Slash {
        push_char(&mut pp, '/');
    }
    Ok(pp)
}

/// The bytes that a state holds back: a `/` or a `*`.
pub open spec fn held_back(state: Scan) -> nat {
    if state == Scan::Slash || state == Scan::BlockStar {
        1
    } else {
        0
    }
}

proof fn lemma_utf8_len_concat(a: Seq<char>, b: Seq<char>)
    ensures
        utf8_len(a + b) == utf8_len(a) + utf8_len(b),
    decreases b.len(),
{
    if b.len() == 0 {
        assert(a + b =~= a);
    } else {
        assert((a + b).drop_last() =~= a + b.drop_last());
        assert((a + b).last() == b.last());
        lemma_utf8_len_concat(a, b.drop_last());
    }
}

proof fn lemma_utf8_len_blanks(n: nat)
    ensures
        utf8_len(blanks(n)) == n,
    decreases n,
{
    if n > 0 {
        assert(blanks(n).drop_last() =~= blanks((n - 1) as nat));
        lemma_utf8_len_blanks((n - 1) as nat);
    }
}

proof fn lemma_utf8_len_one(c: char)
    ensures
        utf8_len(seq![c]) == utf8_width(c),
{
    assert(seq![c].drop_last() =~= Seq::<char>::empty());
    assert(utf8_len(Seq::<char>::empty()) == 0);
    assert(seq![c].last() == c);
}

proof fn lemma_scan_len(s: Seq<char>)
    ensures
        utf8_len(scan(s).0) + held_back(scan(s).1) == utf8_len(s),
    decreases s.len(),
{
    if s.len() > 0 {
        let prev = s.drop_last();
        let c = s.last();
        lemma_scan_len(prev);
        let (out, state, opened) = scan(prev);
        let (next, written, o2) = step(state, c, (s.len() - 1) as nat, opened);
        lemma_utf8_len_concat(out, written);
        lemma_utf8_len_one(c);
        lemma_utf8_len_one('/');
        lemma_utf8_len_blanks(1);
        lemma_utf8_len_blanks(2);
        lemma_utf8_len_blanks(utf8_width(c));
        lemma_utf8_len_blanks(1 + utf8_width(c));
        assert(seq!['/', c] =~= seq!['/'] + seq![c]);
        lemma_utf8_len_concat(seq!['/'], seq![c]);
        assert(utf8_len(Seq::<char>::empty()) == 0);
    }
}

/// Preprocessing keeps the length of a file in bytes: every character that
/// is not in a comment stays at its byte position.
pub proof fn law_preprocess_keeps_length(s: Seq<char>, file_id: usize)
    requires
        spec_preprocess(s, file_id) is Ok,
    ensures
        utf8_len(spec_preprocess(s, file_id)->Ok_0) == utf8_len(s),
{
    lemma_scan_len(s);
    let (out, state, opened) = scan(s);
    if state == Scan::Slash {
        lemma_utf8_len_concat(out, seq!['/']);
        lemma_utf8_len_one('/');
        assert(out.push('/') =~= out + seq!['/']);
    }
}

/// `c` holds no `*` directly followed by `/`: nothing in it closes a block
/// comment.
pub open spec fn closes_nowhere(c: Seq<char>) -> bool {
    forall|j: int| 0 <= j < c.len() - 1 ==> !(#[trigger] c[j] == '*' && c[j + 1] == '/')
}

proof fn lemma_blanks_add(a: nat, b: nat)
    ensures
        blanks(a) + blanks(b) == blanks(a + b),
{
    assert(blanks(a) + blanks(b) =~= blanks(a + b));
}

proof fn lemma_block_body(t: Seq<char>, c: Seq<char>)
    requires
        scan(t).1 == Scan::Code,
        closes_nowhere(c),
    ensures
        scan(t + seq!['/', '*'] + c).1 == Scan::Block || scan(t + seq!['/', '*'] + c).1 == Scan::BlockStar,
        scan(t + seq!['/', '*'] + c).1 == Scan::BlockStar ==> c.len() > 0 && c.last() == '*' && utf8_len(c) >= 1,
        scan(t + seq!['/', '*'] + c).0 == scan(t).0 + blanks(
            (2 + utf8_len(c) - (if scan(t + seq!['/', '*'] + c).1 == Scan::BlockStar {
                1int
            } else {
                0int
            })) as nat,
        ),
    decreases c.len(),
{
    let s = t + seq!['/', '*'] + c;
    if c.len() == 0 {
        let s1 = t + seq!['/'];
        assert(s1.drop_last() =~= t);
        assert(s1.last() == '/');
        assert(s =~= t + seq!['/', '*']);
        assert(s.drop_last() =~= s1);
        assert(s.last() == '*');
        assert(scan(s1).0 =~= scan(t).0 + Seq::<char>::empty());
        assert(utf8_len(c) == 0);
    } else {
        let c1 = c.drop_last();
        let x = c.last();
        assert forall|j: int| 0 <= j < c1.len() - 1 implies !(#[trigger] c1[j] == '*' && c1[j + 1] == '/') by {
            assert(c1[j] == c[j] && c1[j + 1] == c[j + 1]);
        }
        lemma_block_body(t, c1);
        let s1 = t + seq!['/', '*'] + c1;
        assert(s.drop_last() =~= s1);
        assert(s.last() == x);
        let st = scan(s1).1;
        let o = scan(s1).0;
        assert(utf8_len(c) == utf8_len(c1) + utf8_width(x));
        assert(utf8_width('*') == 1);
        if st == Scan::Block {
            if x == '*' {
                assert(scan(s).0 =~= o);
            } else {
                lemma_blanks_add((2 + utf8_len(c1)) as nat, utf8_width(x));
            }
        } else {
            assert(c1.last() == '*');
            assert(c[c.len() - 2] == '*');
            if x == '*' {
                lemma_blanks_add((1 + utf8_len(c1)) as nat, 1);
            } else {
                assert(x != '/') by {
                    assert(!(c[c.len() - 2] == '*' && c[c.len() - 1] == '/'));
                }
                lemma_blanks_add((1 + utf8_len(c1)) as nat, 1 + utf8_width(x));
            }
        }
    }
}

/// A block comment is blanked whole up to the first `*/` after its `/*`,
/// whatever `*` it holds: reading `t`, which leaves the reading outside any
/// comment, then `/*`, a text `c` in which nothing closes a comment, and `*/`
/// writes what `t` writes and then only blanks, as many bytes as the
/// comment takes, and leaves the reading outside any comment; after `c`
/// alone the reading is still inside the comment.
pub proof fn law_block_comment_blanked(t: Seq<char>, c: Seq<char>)
    requires
        scan(t).1 == Scan::Code,
        closes_nowhere(c),
    ensures
        scan(t + seq!['/', '*'] + c).1 == Scan::Block || scan(t + seq!['/', '*'] + c).1 == Scan::BlockStar,
        scan(t + seq!['/', '*'] + c + seq!['*', '/']).0 == scan(t).0 + blanks(4 + utf8_len(c)),
        scan(t + seq!['/', '*'] + c + seq!['*', '/']).1 == Scan::Code,
{
    lemma_block_body(t, c);
    let s = t + seq!['/', '*'] + c;
    let s2 = s + seq!['*'];
    let s3 = s + seq!['*', '/'];
    assert(s2.drop_last() =~= s);
    assert(s2.last() == '*');
    assert(s3.drop_last() =~= s2);
    assert(s3.last() == '/');
    let (o, st, op) = scan(s);
    if st == Scan::Block {
        assert(scan(s2).0 =~= o);
        assert(scan(s2).1 == Scan::BlockStar);
        lemma_blanks_add((2 + utf8_len(c)) as nat, 2);
    } else {
        lemma_blanks_add((1 + utf8_len(c)) as nat, 1);
        assert(scan(s2).1 == Scan::BlockStar);
        lemma_blanks_add((2 + utf8_len(c)) as nat, 2);
    }
}

} // verus!
