//! Regrouping the whitespace-separated words of a line into lexable words:
//! brackets and two-character operators are split off, and a quoted text
//! that spans several words is joined back together with single spaces.
use vstd::prelude::*;
use crate::parsing::text::{seqs, flush};

verus! {

pub open spec fn is_bracket(c: char) -> bool {
    c == '(' || c == ')' || c == '[' || c == ']' || c == '{' || c == '}'
}

/// Two characters that form one of the operators `<<`, `<=`, `>>`, `>=`, `==`.
pub open spec fn is_pair(a: char, b: char) -> bool {
    ||| (a == '<' && (b == '<' || b == '='))
    ||| (a == '>' && (b == '>' || b == '='))
    ||| (a == '=' && b == '=')
}

/// The pieces of a word `w`, where `cur` holds the characters already
/// gathered into the current piece.
pub open spec fn scan_acc(w: Seq<char>, cur: Seq<char>) -> Seq<Seq<char>>
    decreases w.len(),
{
    if w.len() == 0 {
        flush(cur)
    } else if is_bracket(w[0]) {
        flush(cur) + seq![seq![w[0]]] + scan_acc(w.drop_first(), seq![])
    } else if w.len() >= 2 && is_pair(w[0], w[1]) {
        flush(cur) + seq![w.take(2)] + scan_acc(w.skip(2), seq![])
    } else {
        scan_acc(w.drop_first(), cur.push(w[0]))
    }
}

/// The pieces of all the words, in order.
pub open spec fn pieces(words: Seq<Seq<char>>) -> Seq<Seq<char>>
    decreases words.len(),
{
    if words.len() == 0 {
        seq![]
    } else {
        pieces(words.drop_last()) + scan_acc(words.last(), seq![])
    }
}

/// How many `"` characters `w` holds.
pub open spec fn quotes(w: Seq<char>) -> nat
    decreases w.len(),
{
    if w.len() == 0 {
        0
    } else {
        quotes(w.drop_last()) + if w.last() == '"' {
            1nat
        } else {
            0nat
        }
    }
}

/// One past the first index at or after `j` whose piece holds a quote, or the
/// number of pieces when none does.
pub open spec fn gather_end(ps: Seq<Seq<char>>, j: int) -> int
    decreases ps.len() - j,
{
    if j >= ps.len() {
        ps.len() as int
    } else if quotes(ps[j]) > 0 {
        j + 1
    } else {
        gather_end(ps, j + 1)
    }
}

/// The pieces from `j` up to `e`, each preceded by a space.
pub open spec fn joined(ps: Seq<Seq<char>>, j: int, e: int) -> Seq<char>
    decreases e - j,
{
    if j >= e {
        seq![]
    } else {
        joined(ps, j, e - 1) + seq![' '] + ps[e - 1]
    }
}

pub proof fn lemma_gather_end_bounds(ps: Seq<Seq<char>>, j: int)
    requires
        0 <= j,
    ensures
        j <= ps.len() ==> j <= gather_end(ps, j) <= ps.len(),
        j < ps.len() ==> j < gather_end(ps, j),
    decreases ps.len() - j,
{
    if j < ps.len() && quotes(ps[j]) == 0 {
        lemma_gather_end_bounds(ps, j + 1);
    }
}

/// The merged words from piece `i` on: a piece with exactly one quote opens a
/// quoted text that runs up to and including the next piece with a quote.
pub open spec fn group_from(ps: Seq<Seq<char>>, i: int) -> Seq<Seq<char>>
    decreases ps.len() - i,
{
    if i < 0 || i >= ps.len() {
        seq![]
    } else if quotes(ps[i]) == 1 {
        let e = gather_end(ps, i + 1);
        proof {
            lemma_gather_end_bounds(ps, i + 1);
        }
        seq![ps[i] + joined(ps, i + 1, e)] + group_from(ps, e)
    } else {
        seq![ps[i]] + group_from(ps, i + 1)
    }
}

/// The words that the lexer reads from a line whose whitespace-separated
/// words are `words`.
pub open spec fn merged(words: Seq<Seq<char>>) -> Seq<Seq<char>> {
    group_from(pieces(words), 0)
}

pub open spec fn all_nonempty(ws: Seq<Seq<char>>) -> bool {
    forall|k: int| 0 <= k < ws.len() ==> ws[k].len() > 0
}

proof fn lemma_gather_skip(ps: Seq<Seq<char>>, j: int, i: int)
    requires
        0 <= j <= i <= ps.len(),
        forall|k: int| j <= k < i ==> quotes(#[trigger] ps[k]) == 0,
    ensures
        gather_end(ps, j) == gather_end(ps, i),
    decreases i - j,
{
    if j < i {
        lemma_gather_skip(ps, j + 1, i);
    }
}

proof fn lemma_quotes_push(w: Seq<char>, c: char)
    ensures
        quotes(w.push(c)) == quotes(w) + if c == '"' {
            1nat
        } else {
            0nat
        },
{
    assert(w.push(c).drop_last() =~= w);
}

/// The number of quote characters in `w`.
fn count_quotes(w: &Vec<char>) -> (n: usize)
    ensures
        n == quotes(w@),
{
    let mut n: usize = 0;
    let mut k: usize = 0;
    while k < w.len()
        invariant
            k <= w.len(),
            n == quotes(w@.take(k as int)),
            n <= k,
        decreases w.len() - k,
    {
        proof {
            assert(w@.take(k + 1) =~= w@.take(k as int).push(w@[k as int]));
            lemma_quotes_push(w@.take(k as int), w@[k as int]);
        }
        if w[k] == '"' {
            n = n + 1;
        }
        k = k + 1;
    }
    assert(w@.take(k as int) =~= w@);
    n
}

proof fn lemma_scan_step(w: Seq<char>, i: int, cur: Seq<char>)
    requires
        0 <= i < w.len(),
    ensures
        w.skip(i)[0] == w[i],
        w.skip(i).drop_first() =~= w.skip(i + 1),
        i + 1 < w.len() ==> w.skip(i)[1] == w[i + 1],
        i + 1 < w.len() ==> w.skip(i).skip(2) =~= w.skip(i + 2),
        i + 1 < w.len() ==> w.skip(i).take(2) =~= seq![w[i], w[i + 1]],
{
}

/// Splits one word into its pieces, appending them to `out`.
fn scan_word(w: &Vec<char>, out: &mut Vec<Vec<char>>)
    ensures
        seqs(final(out)@) == seqs(old(out)@) + scan_acc(w@, seq![]),
        all_nonempty(seqs(old(out)@)) ==> all_nonempty(seqs(final(out)@)),
{
    let ghost start = seqs(out@);
    let mut cur: Vec<char> = Vec::new();
    let mut i: usize = 0;
    assert(w@.skip(0) =~= w@);
    assert(start + scan_acc(w@, seq![]) =~= seqs(out@) + scan_acc(w@.skip(0), cur@));
    while i < w.len()
        invariant
            i <= w.len(),
            seqs(out@) + scan_acc(w@.skip(i as int), cur@) == start + scan_acc(w@, seq![]),
            all_nonempty(start) ==> all_nonempty(seqs(out@)),
        decreases w.len() - i,
    {
        let c = w[i];
        proof {
            lemma_scan_step(w@, i as int, cur@);
        }
        let bracket = c == '(' || c == ')' || c == '[' || c == ']' || c == '{' || c == '}';
        let pair = i + 1 < w.len() && ((c == '<' && (w[i + 1] == '<' || w[i + 1] == '=')) || (c
            == '>' && (w[i + 1] == '>' || w[i + 1] == '=')) || (c == '=' && w[i + 1] == '='));
        if bracket || pair {
            let ghost a = seqs(out@);
            let ghost cv = cur@;
            if cur.len() > 0 {
                out.push(cur);
                assert(seqs(out@) =~= a + flush(cv));
            } else {
                assert(seqs(out@) =~= a + flush(cv));
            }
            let mut piece: Vec<char> = Vec::new();
            piece.push(c);
            if pair {
                piece.push(w[i + 1]);
            }
            let ghost b = seqs(out@);
            let ghost pv = piece@;
            out.push(piece);
            assert(seqs(out@) =~= b + seq![pv]);
            cur = Vec::new();
            let ghost next: int = if bracket {
                i + 1
            } else {
                i + 2
            };
            proof {
                let ws = w@.skip(i as int);
                if bracket {
                    assert(pv =~= seq![ws[0]]);
                    assert(is_bracket(ws[0]));
                } else {
                    assert(pv =~= ws.take(2));
                    assert(!is_bracket(ws[0]));
                    assert(ws.len() >= 2 && is_pair(ws[0], ws[1]));
                }
                assert(scan_acc(ws, cv) == flush(cv) + seq![pv] + scan_acc(w@.skip(next), seq![]));
            }
            assert(seqs(out@) + scan_acc(w@.skip(next), cur@) =~= a + (flush(cv) + seq![pv]
                + scan_acc(w@.skip(next), seq![])));
            if bracket {
                i = i + 1;
            } else {
                i = i + 2;
            }
        } else {
            assert(scan_acc(w@.skip(i as int), cur@) == scan_acc(w@.skip(i + 1), cur@.push(c)));
            cur.push(c);
            i = i + 1;
        }
    }
    assert(w@.skip(i as int) =~= Seq::<char>::empty());
    let ghost a = seqs(out@);
    if cur.len() > 0 {
        out.push(cur);
        assert(seqs(out@) =~= a + flush(cur@));
    } else {
        assert(seqs(out@) =~= a + flush(cur@));
    }
}

proof fn lemma_scan_nonempty(w: Seq<char>, cur: Seq<char>)
    ensures
        all_nonempty(scan_acc(w, cur)),
    decreases w.len(),
{
    if w.len() == 0 {
    } else if is_bracket(w[0]) {
        lemma_scan_nonempty(w.drop_first(), seq![]);
    } else if w.len() >= 2 && is_pair(w[0], w[1]) {
        lemma_scan_nonempty(w.skip(2), seq![]);
    } else {
        lemma_scan_nonempty(w.drop_first(), cur.push(w[0]));
    }
}

proof fn lemma_joined_snoc(ps: Seq<Seq<char>>, j: int, e: int)
    requires
        j <= e,
    ensures
        joined(ps, j, e + 1) == joined(ps, j, e) + seq![' '] + ps[e],
{
}

/// Merges the whitespace-separated words of a line into the words the lexer
/// reads (see [`merged`]).
pub fn merge_words(words: &Vec<Vec<char>>) -> (r: Vec<Vec<char>>)
    ensures
        seqs(r@) == merged(seqs(words@)),
{
    // First pass: split every word into its pieces.
    let mut split: Vec<Vec<char>> = Vec::new();
    let mut w: usize = 0;
    while w < words.len()
        invariant
            w <= words.len(),
            seqs(split@) == pieces(seqs(words@).take(w as int)),
        decreases words.len() - w,
    {
        proof {
            let t = seqs(words@).take(w + 1);
            assert(t.drop_last() =~= seqs(words@).take(w as int));
            assert(t.last() == words@[w as int]@);
        }
        scan_word(&words[w], &mut split);
        w = w + 1;
    }
    assert(seqs(words@).take(w as int) =~= seqs(words@));
    let ghost ps = seqs(split@);
    // Second pass: join quoted texts back together.
    let mut merged_out: Vec<Vec<char>> = Vec::new();
    let mut i: usize = 0;
    while i < split.len()
        invariant
            i <= split.len(),
            ps == seqs(split@),
            seqs(merged_out@) + group_from(ps, i as int) == group_from(ps, 0),
        decreases split.len() - i,
    {
        let q = count_quotes(&split[i]);
        if q == 1 {
            let mut group: Vec<char> = split[i].clone();
            let i0 = i;
            i = i + 1;
            assert(joined(ps, i0 + 1, i0 + 1) =~= Seq::<char>::empty());
            assert(group@ =~= ps[i0 as int] + joined(ps, i0 + 1, i as int));
            let mut closed = false;
            while i < split.len() && !closed
                invariant
                    i0 + 1 <= i <= split.len(),
                    ps == seqs(split@),
                    group@ == ps[i0 as int] + joined(ps, i0 + 1, i as int),
                    closed ==> gather_end(ps, i0 + 1) == i,
                    !closed ==> gather_end(ps, i0 + 1) == gather_end(ps, i as int),
                decreases split.len() - i,
            {
                group.push(' ');
                let piece = &split[i];
                let mut k: usize = 0;
                let ghost g0 = group@;
                while k < piece.len()
                    invariant
                        k <= piece.len(),
                        piece == split@[i as int],
                        group@ == g0 + piece@.take(k as int),
                    decreases piece.len() - k,
                {
                    group.push(piece[k]);
                    k = k + 1;
                    assert(group@ =~= g0 + piece@.take(k as int));
                }
                assert(piece@.take(k as int) =~= piece@);
                proof {
                    lemma_joined_snoc(ps, i0 + 1, i as int);
                    assert(group@ =~= ps[i0 as int] + joined(ps, i0 + 1, i + 1));
                }
                let qi = count_quotes(&split[i]);
                if qi > 0 {
                    closed = true;
                }
                i = i + 1;
            }
            proof {
                lemma_gather_end_bounds(ps, i as int);
                if !closed {
                    assert(i == split.len());
                }
                assert(gather_end(ps, i0 + 1) == i);
            }
            let ghost before = seqs(merged_out@);
            merged_out.push(group);
            assert(seqs(merged_out@) =~= before + seq![ps[i0 as int] + joined(ps, i0 + 1, i as int)]);
            assert(seqs(merged_out@) + group_from(ps, i as int) =~= before + group_from(
                ps,
                i0 as int,
            ));
        } else {
            let ghost before = seqs(merged_out@);
            merged_out.push(split[i].clone());
            assert(seqs(merged_out@) =~= before + seq![ps[i as int]]);
            assert(seqs(merged_out@) + group_from(ps, i + 1) =~= before + group_from(ps, i as int));
            i = i + 1;
        }
    }
    assert(group_from(ps, i as int) =~= Seq::<Seq<char>>::empty());
    assert(seqs(merged_out@) =~= group_from(ps, 0));
    merged_out
}


/// `w` does not hold `c`.
pub open spec fn free_of(w: Seq<char>, c: char) -> bool {
    forall|k: int| 0 <= k < w.len() ==> w[k] != c
}

/// None of `ws` holds `c`.
pub open spec fn all_free_of(ws: Seq<Seq<char>>, c: char) -> bool {
    forall|k: int| 0 <= k < ws.len() ==> free_of(#[trigger] ws[k], c)
}

/// `w` holds no `"`.
pub open spec fn quote_free(w: Seq<char>) -> bool {
    free_of(w, '"')
}

/// None of `ws` holds a `"`.
pub open spec fn all_quote_free(ws: Seq<Seq<char>>) -> bool {
    all_free_of(ws, '"')
}

proof fn lemma_quotes_zero(w: Seq<char>)
    requires
        quote_free(w),
    ensures
        quotes(w) == 0,
    decreases w.len(),
{
    if w.len() > 0 {
        assert forall|k: int| 0 <= k < w.drop_last().len() implies w.drop_last()[k] != '"' by {
            assert(w.drop_last()[k] == w[k]);
        }
        lemma_quotes_zero(w.drop_last());
        assert(w.last() == w[w.len() - 1]);
    }
}

proof fn lemma_flatten_flush(cur: Seq<char>)
    ensures
        flush(cur).flatten() == cur,
        all_nonempty(flush(cur)),
{
    if cur.len() > 0 {
        seq![cur].lemma_flatten_one_element();
        assert(seq![cur].first() == cur);
    } else {
        assert(cur =~= Seq::<char>::empty());
    }
}

/// The pieces of `w` (with `cur` gathered before it) are non-empty, hold the
/// characters of `cur` and `w` in order, and hold no quote when those do not.
proof fn lemma_scan_acc(w: Seq<char>, cur: Seq<char>, c: char)
    ensures
        scan_acc(w, cur).flatten() == cur + w,
        all_nonempty(scan_acc(w, cur)),
        free_of(cur, c) && free_of(w, c) ==> all_free_of(scan_acc(w, cur), c),
    decreases w.len(),
{
    lemma_flatten_flush(cur);
    if w.len() == 0 {
        assert(cur + w =~= cur);
    } else if is_bracket(w[0]) || (w.len() >= 2 && is_pair(w[0], w[1])) {
        let head: Seq<char> = if is_bracket(w[0]) {
            seq![w[0]]
        } else {
            w.take(2)
        };
        let tail: Seq<char> = if is_bracket(w[0]) {
            w.drop_first()
        } else {
            w.skip(2)
        };
        assert(head + tail =~= w);
        lemma_scan_acc(tail, seq![], c);
        let x = flush(cur);
        let y = seq![head];
        let z = scan_acc(tail, seq![]);
        assert(scan_acc(w, cur) == x + y + z);
        vstd::seq_lib::lemma_flatten_concat(x + y, z);
        vstd::seq_lib::lemma_flatten_concat(x, y);
        y.lemma_flatten_one_element();
        assert(Seq::<char>::empty() + tail =~= tail);
        assert(cur + head + tail =~= cur + w);
        assert forall|k: int| 0 <= k < (x + y + z).len() implies (#[trigger] (x + y + z)[k]).len()
            > 0 by {
            if k >= x.len() + 1 {
                assert((x + y + z)[k] == z[k - x.len() - 1]);
            } else if k == x.len() {
                assert((x + y + z)[k] == head);
            } else {
                assert((x + y + z)[k] == x[k]);
            }
        }
        if free_of(cur, c) && free_of(w, c) {
            assert forall|k: int| 0 <= k < tail.len() implies tail[k] != c by {
                assert(tail[k] == w[k + head.len()]);
            }
            assert forall|k: int| 0 <= k < (x + y + z).len() implies free_of(
                #[trigger] (x + y + z)[k], c) by {
                if k >= x.len() + 1 {
                    assert((x + y + z)[k] == z[k - x.len() - 1]);
                } else if k == x.len() {
                    assert((x + y + z)[k] == head);
                    assert forall|m: int| 0 <= m < head.len() implies head[m] != c by {
                        assert(head[m] == w[m]);
                    }
                } else {
                    assert((x + y + z)[k] == cur);
                }
            }
        }
    } else {
        lemma_scan_acc(w.drop_first(), cur.push(w[0]), c);
        assert(cur.push(w[0]) + w.drop_first() =~= cur + w);
        if free_of(cur, c) && free_of(w, c) {
            assert forall|k: int| 0 <= k < cur.push(w[0]).len() implies cur.push(w[0])[k]
                != c by {
                if k < cur.len() {
                    assert(cur.push(w[0])[k] == cur[k]);
                }
            }
            assert forall|k: int| 0 <= k < w.drop_first().len() implies w.drop_first()[k]
                != c by {
                assert(w.drop_first()[k] == w[k + 1]);
            }
        }
    }
}

proof fn lemma_pieces(words: Seq<Seq<char>>, c: char)
    ensures
        pieces(words).flatten() == words.flatten(),
        all_nonempty(pieces(words)),
        all_free_of(words, c) ==> all_free_of(pieces(words), c),
    decreases words.len(),
{
    if words.len() > 0 {
        let d = words.drop_last();
        lemma_pieces(d, c);
        lemma_scan_acc(words.last(), seq![], c);
        assert(Seq::<char>::empty() + words.last() =~= words.last());
        vstd::seq_lib::lemma_flatten_concat(pieces(d), scan_acc(words.last(), seq![]));
        assert(d.push(words.last()) =~= words);
        d.lemma_flatten_push(words.last());
        let x = pieces(d);
        let y = scan_acc(words.last(), seq![]);
        assert forall|k: int| 0 <= k < (x + y).len() implies (#[trigger] (x + y)[k]).len() > 0 by {
            if k >= x.len() {
                assert((x + y)[k] == y[k - x.len()]);
            } else {
                assert((x + y)[k] == x[k]);
            }
        }
        if all_free_of(words, c) {
            assert forall|k: int| 0 <= k < d.len() implies free_of(#[trigger] d[k], c) by {
                assert(d[k] == words[k]);
            }
            assert(free_of(words[words.len() - 1], c));
            assert forall|k: int| 0 <= k < (x + y).len() implies free_of(
                #[trigger] (x + y)[k], c) by {
                if k >= x.len() {
                    assert((x + y)[k] == y[k - x.len()]);
                } else {
                    assert((x + y)[k] == x[k]);
                }
            }
        }
    } else {
        assert(words.flatten() =~= Seq::<char>::empty());
    }
}

proof fn lemma_pieces_append(a: Seq<Seq<char>>, b: Seq<Seq<char>>)
    ensures
        pieces(a + b) == pieces(a) + pieces(b),
    decreases b.len(),
{
    if b.len() == 0 {
        assert(a + b =~= a);
        assert(pieces(a) + pieces(b) =~= pieces(a));
    } else {
        assert((a + b).drop_last() =~= a + b.drop_last());
        assert((a + b).last() == b.last());
        lemma_pieces_append(a, b.drop_last());
        assert(pieces(a) + pieces(b.drop_last()) + scan_acc(b.last(), seq![]) =~= pieces(a)
            + pieces(b));
    }
}

proof fn lemma_group_quote_free(ps: Seq<Seq<char>>, i: int)
    requires
        0 <= i <= ps.len(),
        all_quote_free(ps),
    ensures
        group_from(ps, i) == ps.skip(i),
    decreases ps.len() - i,
{
    if i < ps.len() {
        lemma_quotes_zero(ps[i]);
        lemma_group_quote_free(ps, i + 1);
        assert(seq![ps[i]] + ps.skip(i + 1) =~= ps.skip(i));
    } else {
        assert(ps.skip(i) =~= Seq::<Seq<char>>::empty());
    }
}

/// `r` holds no bracket and no two neighbouring characters that form an
/// operator.
pub open spec fn is_run(r: Seq<char>) -> bool {
    &&& forall|k: int| 0 <= k < r.len() ==> !is_bracket(#[trigger] r[k])
    &&& forall|k: int| 0 <= k < r.len() - 1 ==> !is_pair(#[trigger] r[k], r[k + 1])
}

/// A piece cut again is itself.
pub open spec fn stable(p: Seq<char>) -> bool {
    scan_acc(p, seq![]) == seq![p]
}

proof fn lemma_run_scan(r: Seq<char>, c: Seq<char>)
    requires
        is_run(r),
    ensures
        scan_acc(r, c) == flush(c + r),
    decreases r.len(),
{
    if r.len() == 0 {
        assert(c + r =~= c);
    } else {
        assert(!is_bracket(r[0]));
        if r.len() >= 2 {
            assert(!is_pair(r[0], r[1]));
        }
        let d = r.drop_first();
        assert forall|k: int| 0 <= k < d.len() implies !is_bracket(#[trigger] d[k]) by {
            assert(d[k] == r[k + 1]);
        }
        assert forall|k: int| 0 <= k < d.len() - 1 implies !is_pair(#[trigger] d[k], d[k + 1]) by {
            assert(d[k] == r[k + 1]);
            assert(d[k + 1] == r[k + 2]);
        }
        lemma_run_scan(d, c.push(r[0]));
        assert(c.push(r[0]) + d =~= c + r);
    }
}

proof fn lemma_scan_stable(w: Seq<char>, cur: Seq<char>)
    requires
        is_run(cur),
        cur.len() > 0 && w.len() > 0 ==> !is_pair(cur.last(), w[0]),
    ensures
        forall|k: int| 0 <= k < scan_acc(w, cur).len() ==> stable(#[trigger] scan_acc(w, cur)[k]),
    decreases w.len(),
{
    lemma_run_scan(cur, seq![]);
    assert(Seq::<char>::empty() + cur =~= cur);
    let x = flush(cur);
    if cur.len() > 0 {
        assert(x[0] == cur);
        assert(stable(cur));
    }
    assert(forall|k: int| 0 <= k < x.len() ==> stable(#[trigger] x[k]));
    if w.len() == 0 {
        assert(scan_acc(w, cur) == x);
    } else if is_bracket(w[0]) || (w.len() >= 2 && is_pair(w[0], w[1])) {
        let head: Seq<char> = if is_bracket(w[0]) {
            seq![w[0]]
        } else {
            w.take(2)
        };
        let tail: Seq<char> = if is_bracket(w[0]) {
            w.drop_first()
        } else {
            w.skip(2)
        };
        lemma_scan_stable(tail, seq![]);
        let y = seq![head];
        let z = scan_acc(tail, seq![]);
        assert(scan_acc(head.skip(head.len() as int), seq![]) == flush(seq![]));
        if is_bracket(w[0]) {
            assert(head.drop_first() =~= Seq::<char>::empty());
            assert(seq![head[0]] =~= head);
        } else {
            assert(head.skip(2) =~= Seq::<char>::empty());
            assert(head.take(2) =~= head);
            assert(head[0] == w[0] && head[1] == w[1]);
            assert(!is_bracket(head[0]));
        }
        assert(scan_acc(head, seq![]) =~= seq![head]);
        assert(scan_acc(w, cur) == x + y + z);
        assert forall|k: int| 0 <= k < (x + y + z).len() implies stable(#[trigger] (x + y + z)[k]) by {
            if k >= x.len() + 1 {
                assert((x + y + z)[k] == z[k - x.len() - 1]);
            } else if k == x.len() {
                assert((x + y + z)[k] == head);
            } else {
                assert((x + y + z)[k] == x[k]);
            }
        }
    } else {
        let c2 = cur.push(w[0]);
        assert forall|k: int| 0 <= k < c2.len() implies !is_bracket(#[trigger] c2[k]) by {
            if k < cur.len() {
                assert(c2[k] == cur[k]);
            }
        }
        assert forall|k: int| 0 <= k < c2.len() - 1 implies !is_pair(#[trigger] c2[k], c2[k + 1]) by {
            if k < cur.len() - 1 {
                assert(c2[k] == cur[k] && c2[k + 1] == cur[k + 1]);
            } else {
                assert(c2[k] == cur.last() && c2[k + 1] == w[0]);
            }
        }
        if w.len() >= 2 {
            assert(w.drop_first()[0] == w[1]);
        }
        lemma_scan_stable(w.drop_first(), c2);
        assert(scan_acc(w, cur) == scan_acc(w.drop_first(), c2));
    }
}

proof fn lemma_pieces_stable(words: Seq<Seq<char>>)
    ensures
        forall|k: int| 0 <= k < pieces(words).len() ==> stable(#[trigger] pieces(words)[k]),
    decreases words.len(),
{
    if words.len() > 0 {
        lemma_pieces_stable(words.drop_last());
        lemma_scan_stable(words.last(), seq![]);
        let x = pieces(words.drop_last());
        let y = scan_acc(words.last(), seq![]);
        assert forall|k: int| 0 <= k < (x + y).len() implies stable(#[trigger] (x + y)[k]) by {
            if k >= x.len() {
                assert((x + y)[k] == y[k - x.len()]);
            } else {
                assert((x + y)[k] == x[k]);
            }
        }
    }
}

proof fn lemma_pieces_of_stable(ps: Seq<Seq<char>>)
    requires
        forall|k: int| 0 <= k < ps.len() ==> stable(#[trigger] ps[k]),
    ensures
        pieces(ps) == ps,
    decreases ps.len(),
{
    if ps.len() > 0 {
        assert(stable(ps[ps.len() - 1]));
        lemma_pieces_of_stable(ps.drop_last());
        assert(ps.drop_last() + seq![ps.last()] =~= ps);
    }
}

proof fn lemma_gather_shift(x: Seq<Seq<char>>, y: Seq<Seq<char>>, j: int)
    requires
        0 <= j,
    ensures
        gather_end(x + y, x.len() + j) == x.len() + gather_end(y, j),
    decreases y.len() - j,
{
    if j < y.len() {
        assert((x + y)[x.len() + j] == y[j]);
        if quotes(y[j]) == 0 {
            lemma_gather_shift(x, y, j + 1);
        }
    }
}

proof fn lemma_joined_shift(x: Seq<Seq<char>>, y: Seq<Seq<char>>, j: int, e: int)
    requires
        0 <= j,
        e <= y.len(),
    ensures
        joined(x + y, x.len() + j, x.len() + e) == joined(y, j, e),
    decreases e - j,
{
    if j < e {
        lemma_joined_shift(x, y, j, e - 1);
        assert((x + y)[x.len() + e - 1] == y[e - 1]);
    }
}

/// Merging the pieces after `x` does not depend on `x`.
proof fn lemma_group_shift(x: Seq<Seq<char>>, y: Seq<Seq<char>>, j: int)
    requires
        0 <= j,
    ensures
        group_from(x + y, x.len() + j) == group_from(y, j),
    decreases y.len() - j,
{
    if j < y.len() {
        assert((x + y)[x.len() + j] == y[j]);
        lemma_gather_end_bounds(y, j + 1);
        if quotes(y[j]) == 1 {
            let e = gather_end(y, j + 1);
            lemma_gather_shift(x, y, j + 1);
            lemma_joined_shift(x, y, j + 1, e);
            lemma_group_shift(x, y, e);
        } else {
            lemma_group_shift(x, y, j + 1);
        }
    }
}

/// Merging pieces that start with quote-free ones keeps those as they are.
proof fn lemma_group_prefix(x: Seq<Seq<char>>, y: Seq<Seq<char>>, i: int)
    requires
        0 <= i <= x.len(),
        all_quote_free(x),
    ensures
        group_from(x + y, i) == x.skip(i) + group_from(y, 0),
    decreases x.len() - i,
{
    if i == x.len() {
        lemma_group_shift(x, y, 0);
        assert(x.skip(i) + group_from(y, 0) =~= group_from(y, 0));
    } else {
        assert((x + y)[i] == x[i]);
        lemma_quotes_zero(x[i]);
        lemma_group_prefix(x, y, i + 1);
        assert(seq![x[i]] + (x.skip(i + 1) + group_from(y, 0)) =~= x.skip(i) + group_from(y, 0));
    }
}

/// For words that hold no quote, merging only cuts each word into its
/// pieces: the merged words are non-empty and hold no quote (nor a space
/// when the words hold none), together they hold the characters of the
/// words in the same order, merging them followed by any other words gives
/// their merged words followed by those of the others, and merging the
/// merged words again changes nothing.
pub proof fn lemma_merge_quote_free(a: Seq<Seq<char>>, b: Seq<Seq<char>>)
    requires
        all_quote_free(a),
    ensures
        merged(a) == pieces(a),
        all_nonempty(merged(a)),
        all_quote_free(merged(a)),
        all_free_of(a, ' ') ==> all_free_of(merged(a), ' '),
        merged(a).flatten() == a.flatten(),
        merged(a + b) == merged(a) + merged(b),
        merged(merged(a)) == merged(a),
{
    lemma_pieces(a, '"');
    lemma_pieces(a, ' ');
    lemma_pieces_append(a, b);
    lemma_group_quote_free(pieces(a), 0);
    assert(pieces(a).skip(0) =~= pieces(a));
    lemma_group_prefix(pieces(a), pieces(b), 0);
    lemma_pieces_stable(a);
    lemma_pieces_of_stable(pieces(a));
    lemma_pieces(pieces(a), '"');
    lemma_group_quote_free(pieces(pieces(a)), 0);
    assert(pieces(pieces(a)).skip(0) =~= pieces(pieces(a)));
}

/// `w` holds no bracket and none of `<`, `>`, `=`: nothing it could be
/// cut at.
pub open spec fn uncut(w: Seq<char>) -> bool {
    forall|k: int|
        0 <= k < w.len() ==> !is_bracket(#[trigger] w[k]) && w[k] != '<' && w[k] != '>' && w[k]
            != '='
}

/// `w` holds nothing it could be cut at, and no quote.
pub open spec fn plain(w: Seq<char>) -> bool {
    uncut(w) && quote_free(w)
}

/// The two-character operators that a word is cut at.
pub open spec fn is_operator_pair(op: Seq<char>) -> bool {
    ||| op == seq!['<', '<']
    ||| op == seq!['<', '=']
    ||| op == seq!['>', '>']
    ||| op == seq!['>', '=']
    ||| op == seq!['=', '=']
}

proof fn lemma_scan_plain(a: Seq<char>, rest: Seq<char>, cur: Seq<char>)
    requires
        uncut(a),
    ensures
        scan_acc(a + rest, cur) == scan_acc(rest, cur + a),
    decreases a.len(),
{
    if a.len() == 0 {
        assert(a + rest =~= rest);
        assert(cur + a =~= cur);
    } else {
        let w = a + rest;
        assert(w[0] == a[0]);
        assert(!is_bracket(w[0]));
        assert(!is_pair(w[0], w[1]));
        assert(w.drop_first() =~= a.drop_first() + rest);
        assert forall|k: int| 0 <= k < a.drop_first().len() implies !is_bracket(
            #[trigger] a.drop_first()[k],
        ) && a.drop_first()[k] != '<' && a.drop_first()[k] != '>' && a.drop_first()[k] != '='
            by {
            assert(a.drop_first()[k] == a[k + 1]);
        }
        lemma_scan_plain(a.drop_first(), rest, cur.push(a[0]));
        assert(cur.push(a[0]) + a.drop_first() =~= cur + a);
    }
}

/// A two-character operator inside a word is cut off as a piece of its
/// own: a word made of plain text `a`, an operator and plain text `b`
/// merges to `a`, the operator and `b` (an empty one left out).
pub proof fn lemma_operator_split(a: Seq<char>, op: Seq<char>, b: Seq<char>)
    requires
        plain(a),
        plain(b),
        is_operator_pair(op),
    ensures
        merged(seq![a + op + b]) == flush(a) + seq![op] + flush(b),
{
    let w = a + op + b;
    assert(a + op + b =~= a + (op + b));
    lemma_scan_plain(a, op + b, seq![]);
    assert(Seq::<char>::empty() + a =~= a);
    let r = op + b;
    assert(r[0] == op[0] && r[1] == op[1]);
    assert(!is_bracket(r[0]));
    assert(is_pair(r[0], r[1]));
    assert(r.take(2) =~= op);
    assert(r.skip(2) =~= b);
    lemma_scan_plain(b, seq![], seq![]);
    assert(b + Seq::<char>::empty() =~= b);
    assert(Seq::<char>::empty() + b =~= b);
    assert(scan_acc(w, seq![]) == flush(a) + seq![op] + flush(b));
    let ws = seq![w];
    assert(ws.drop_last() =~= Seq::<Seq<char>>::empty());
    assert(ws.last() == w);
    assert(pieces(ws.drop_last()) == Seq::<Seq<char>>::empty());
    assert(pieces(ws) == pieces(ws.drop_last()) + scan_acc(w, seq![]));
    assert(pieces(ws) =~= scan_acc(w, seq![]));
    let ps = flush(a) + seq![op] + flush(b);
    assert forall|k: int| 0 <= k < ps.len() implies quote_free(#[trigger] ps[k]) by {
        if ps[k] == op {
        } else if ps[k] == a {
            assert forall|m: int| 0 <= m < a.len() implies a[m] != '"' by {
                assert(plain(a));
            }
        } else {
            assert(ps[k] == b);
            assert forall|m: int| 0 <= m < b.len() implies b[m] != '"' by {
                assert(plain(b));
            }
        }
    }
    lemma_group_quote_free(ps, 0);
    assert(ps.skip(0) =~= ps);
}

proof fn lemma_quotes_append(x: Seq<char>, y: Seq<char>)
    ensures
        quotes(x + y) == quotes(x) + quotes(y),
    decreases y.len(),
{
    if y.len() == 0 {
        assert(x + y =~= x);
    } else {
        assert((x + y).drop_last() =~= x + y.drop_last());
        assert((x + y).last() == y.last());
        lemma_quotes_append(x, y.drop_last());
    }
}

/// A text in quotes that spans two words is joined back into one word,
/// with a single space where the words were split.
pub proof fn lemma_quoted_text_joined(a: Seq<char>, b: Seq<char>)
    requires
        plain(a),
        plain(b),
    ensures
        merged(seq![seq!['"'] + a, b + seq!['"']]) == seq![(seq!['"'] + a) + seq![' '] + (b + seq![
            '"',
        ])],
{
    let q = seq!['"'];
    let w1 = q + a;
    let w2 = b + q;
    assert(uncut(w1)) by {
        assert forall|k: int| 0 <= k < w1.len() implies !is_bracket(#[trigger] w1[k]) && w1[k]
            != '<' && w1[k] != '>' && w1[k] != '=' by {
            if k > 0 {
                assert(w1[k] == a[k - 1]);
            }
        }
    }
    assert(uncut(w2)) by {
        assert forall|k: int| 0 <= k < w2.len() implies !is_bracket(#[trigger] w2[k]) && w2[k]
            != '<' && w2[k] != '>' && w2[k] != '=' by {
            if k < b.len() {
                assert(w2[k] == b[k]);
            }
        }
    }
    lemma_scan_plain(w1, seq![], seq![]);
    lemma_scan_plain(w2, seq![], seq![]);
    assert(w1 + Seq::<char>::empty() =~= w1);
    assert(w2 + Seq::<char>::empty() =~= w2);
    assert(Seq::<char>::empty() + w1 =~= w1);
    assert(Seq::<char>::empty() + w2 =~= w2);
    let ws = seq![w1, w2];
    assert(ws.drop_last() =~= seq![w1]);
    assert(seq![w1].drop_last() =~= Seq::<Seq<char>>::empty());
    assert(pieces(Seq::<Seq<char>>::empty()) == Seq::<Seq<char>>::empty());
    assert(pieces(seq![w1]) =~= seq![w1]);
    let ps = pieces(ws);
    assert(ps =~= seq![w1, w2]);
    lemma_quotes_zero(a);
    lemma_quotes_zero(b);
    lemma_quotes_append(q, a);
    lemma_quotes_append(b, q);
    assert(q.drop_last() =~= Seq::<char>::empty());
    assert(quotes(Seq::<char>::empty()) == 0);
    assert(q.last() == '"');
    assert(quotes(q) == 1);
    assert(quotes(ps[0]) == 1);
    assert(quotes(ps[1]) > 0);
    assert(gather_end(ps, 1) == 2);
    lemma_gather_end_bounds(ps, 1);
    assert(joined(ps, 1, 1) == Seq::<char>::empty());
    assert(joined(ps, 1, 2) == Seq::<char>::empty() + seq![' '] + w2);
    assert(group_from(ps, 2) == Seq::<Seq<char>>::empty());
    assert(group_from(ps, 0) == seq![w1 + joined(ps, 1, 2)] + group_from(ps, 2));
    assert(w1 + (Seq::<char>::empty() + seq![' '] + w2) =~= w1 + seq![' '] + w2);
}

} // verus!
