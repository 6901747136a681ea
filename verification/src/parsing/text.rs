//! Character-level helpers shared by the lexer: whitespace classification
//! and splitting a line into whitespace-separated words.
use vstd::prelude::*;

verus! {

/// The characters with the Unicode `White_Space` property (what
/// `char::is_whitespace` accepts).
pub open spec fn is_ws(c: char) -> bool {
    ||| ('\u{9}' <= c && c <= '\u{d}')
    ||| c == ' '
    ||| c == '\u{85}'
    ||| c == '\u{a0}'
    ||| c == '\u{1680}'
    ||| ('\u{2000}' <= c && c <= '\u{200a}')
    ||| c == '\u{2028}'
    ||| c == '\u{2029}'
    ||| c == '\u{202f}'
    ||| c == '\u{205f}'
    ||| c == '\u{3000}'
}

/// The pieces of text as views.
pub open spec fn seqs(v: Seq<Vec<char>>) -> Seq<Seq<char>> {
    v.map_values(|w: Vec<char>| w@)
}

/// `cur` as a one-element sequence, or nothing when it is empty.
pub open spec fn flush(cur: Seq<char>) -> Seq<Seq<char>> {
    if cur.len() > 0 {
        seq![cur]
    } else {
        seq![]
    }
}

/// Splitting `s` into maximal runs of non-whitespace characters, where `cur`
/// is the run already begun before `s`.
pub open spec fn split_acc(s: Seq<char>, cur: Seq<char>) -> Seq<Seq<char>>
    decreases s.len(),
{
    if s.len() == 0 {
        flush(cur)
    } else if is_ws(s[0]) {
        flush(cur) + split_acc(s.drop_first(), seq![])
    } else {
        split_acc(s.drop_first(), cur.push(s[0]))
    }
}

/// The words of `s`, as `str::split_whitespace` yields them.
pub open spec fn split_ws(s: Seq<char>) -> Seq<Seq<char>> {
    split_acc(s, seq![])
}

pub fn is_whitespace(c: char) -> (r: bool)
    ensures
        r == is_ws(c),
{
    ('\u{9}' <= c && c <= '\u{d}') || c == ' ' || c == '\u{85}' || c == '\u{a0}' || c == '\u{1680}'
        || ('\u{2000}' <= c && c <= '\u{200a}') || c == '\u{2028}' || c == '\u{2029}' || c
        == '\u{202f}' || c == '\u{205f}' || c == '\u{3000}'
}

pub fn split_whitespace(s: &Vec<char>) -> (r: Vec<Vec<char>>)
    ensures
        seqs(r@) == split_ws(s@),
        forall|k: int| 0 <= k < r.len() ==> r@[k]@.len() > 0,
{
    let mut out: Vec<Vec<char>> = Vec::new();
    let mut cur: Vec<char> = Vec::new();
    let mut i: usize = 0;
    assert(s@.skip(0) =~= s@);
    assert(seqs(out@) + split_acc(s@, cur@) =~= split_acc(s@, cur@));
    while i < s.len()
        invariant
            i <= s.len(),
            seqs(out@) + split_acc(s@.skip(i as int), cur@) == split_ws(s@),
            forall|k: int| 0 <= k < out.len() ==> out@[k]@.len() > 0,
        decreases s.len() - i,
    {
        let c = s[i];
        let ghost rest = s@.skip(i as int);
        assert(rest[0] == c);
        assert(rest.drop_first() =~= s@.skip(i + 1));
        if is_whitespace(c) {
            if cur.len() > 0 {
                let ghost before = seqs(out@);
                out.push(cur);
                assert(seqs(out@) =~= before + flush(cur@));
            } else {
                assert(flush(cur@) =~= Seq::<Seq<char>>::empty());
                assert(seqs(out@) + flush(cur@) =~= seqs(out@));
            }
            assert(seqs(out@) + split_acc(s@.skip(i + 1), seq![]) == split_ws(s@)) by {
                let a = seqs(out@);
                assert((a + flush(cur@)) + split_acc(s@.skip(i + 1), seq![]) =~= a + (flush(cur@)
                    + split_acc(s@.skip(i + 1), seq![])));
            }
            cur = Vec::new();
        } else {
            cur.push(c);
        }
        i = i + 1;
    }
    assert(s@.skip(i as int) =~= Seq::<char>::empty());
    if cur.len() > 0 {
        let ghost before = seqs(out@);
        out.push(cur);
        assert(seqs(out@) =~= before + flush(cur@));
    } else {
        assert(seqs(out@) + flush(cur@) =~= seqs(out@));
    }
    out
}

} // verus!
