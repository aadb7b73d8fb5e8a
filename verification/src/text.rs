use vstd::prelude::*;
use vstd::string::StringSliceAdditionalSpecFns;

verus! {

/// Two string slices hold the same characters exactly when their UTF-8
/// encodings are the same bytes.
pub fn str_eq(a: &str, b: &str) -> (r: bool)
    ensures
        r == (a@ == b@),
{
    let x = a.as_bytes();
    let y = b.as_bytes();
    proof {
        vstd::utf8::encode_utf8_decode_utf8(a@);
        vstd::utf8::encode_utf8_decode_utf8(b@);
    }
    if x.len() != y.len() {
        return false;
    }
    let mut i: usize = 0;
    while i < x.len()
        invariant
            x@ == a.spec_bytes(),
            y@ == b.spec_bytes(),
            x@.len() == y@.len(),
            i <= x@.len(),
            forall|j: int| 0 <= j < i ==> x@[j] == y@[j],
        decreases x@.len() - i,
    {
        if x[i] != y[i] {
            return false;
        }
        i = i + 1;
    }
    assert(x@ =~= y@);
    true
}


/// The total length of the first `k` pieces.
pub open spec fn lens_before(ws: Seq<Seq<char>>, k: int) -> int
    decreases k,
{
    if k <= 0 {
        0
    } else {
        lens_before(ws, k - 1) + ws[k - 1].len()
    }
}

/// Where piece `k` starts when the pieces are joined with a separator of
/// length `sl`.
pub open spec fn piece_start(ws: Seq<Seq<char>>, sl: int, k: int) -> int
    decreases k,
{
    if k <= 0 {
        0
    } else {
        piece_start(ws, sl, k - 1) + ws[k - 1].len() + sl
    }
}

/// A piece starts after all earlier pieces and one separator between each two.
pub proof fn lemma_piece_start_sum(ws: Seq<Seq<char>>, sl: int, k: int)
    requires
        0 <= k <= ws.len(),
    ensures
        piece_start(ws, sl, k) == lens_before(ws, k) + k * sl,
    decreases k,
{
    if k > 0 {
        lemma_piece_start_sum(ws, sl, k - 1);
        assert((k - 1) * sl + sl == k * sl) by (nonlinear_arith);
    } else {
        assert(k * sl == 0) by (nonlinear_arith)
            requires
                k == 0,
        ;
    }
}

proof fn lemma_piece_start_mono(ws: Seq<Seq<char>>, sl: int, a: int, b: int)
    requires
        0 <= a <= b <= ws.len(),
        sl >= 0,
    ensures
        a < b ==> piece_start(ws, sl, a) + ws[a].len() + sl <= piece_start(ws, sl, b),
        piece_start(ws, sl, a) <= piece_start(ws, sl, b),
    decreases b - a,
{
    if a < b {
        lemma_piece_start_mono(ws, sl, a + 1, b);
    }
}

proof fn lemma_piece_start_prefix(ws: Seq<Seq<char>>, d: Seq<Seq<char>>, sl: int, k: int)
    requires
        0 <= k <= d.len() <= ws.len(),
        forall|j: int| 0 <= j < d.len() ==> d[j] == ws[j],
    ensures
        piece_start(d, sl, k) == piece_start(ws, sl, k),
    decreases k,
{
    if k > 0 {
        lemma_piece_start_prefix(ws, d, sl, k - 1);
    }
}

proof fn lemma_join_len(ws: Seq<Seq<char>>, sep: Seq<char>)
    requires
        ws.len() >= 1,
    ensures
        join_with(ws, sep).len() == piece_start(ws, sep.len() as int, ws.len() - 1) + ws.last().len(),
    decreases ws.len(),
{
    let sl = sep.len() as int;
    let n = ws.len() as int;
    if n > 1 {
        let d = ws.drop_last();
        lemma_join_len(d, sep);
        lemma_piece_start_prefix(ws, d, sl, n - 2);
    }
}

proof fn lemma_join_piece(ws: Seq<Seq<char>>, sep: Seq<char>, k: int)
    requires
        0 <= k < ws.len(),
    ensures
        join_with(ws, sep).subrange(
            piece_start(ws, sep.len() as int, k),
            piece_start(ws, sep.len() as int, k) + ws[k].len(),
        ) == ws[k],
    decreases ws.len(),
{
    let sl = sep.len() as int;
    let n = ws.len() as int;
    let j = join_with(ws, sep);
    if n == 1 {
        assert(j.subrange(0, ws[0].len() as int) =~= ws[0]);
    } else {
        let d = ws.drop_last();
        let jd = join_with(d, sep);
        assert(j == jd + sep + ws.last());
        lemma_join_len(d, sep);
        lemma_piece_start_prefix(ws, d, sl, n - 2);
        if k < n - 1 {
            lemma_join_piece(d, sep, k);
            lemma_piece_start_prefix(ws, d, sl, k);
            lemma_piece_start_mono(d, sl, k, n - 2);
            lemma_piece_start_mono(d, sl, 0, k);
            assert(d[k] == ws[k]);
            assert(j.subrange(piece_start(ws, sl, k), piece_start(ws, sl, k) + ws[k].len()) =~= jd.subrange(
                piece_start(d, sl, k),
                piece_start(d, sl, k) + d[k].len(),
            ));
        } else {
            assert(j.subrange(piece_start(ws, sl, k), piece_start(ws, sl, k) + ws[k].len()) =~= ws.last());
        }
    }
}

proof fn lemma_join_sep(ws: Seq<Seq<char>>, sep: Seq<char>, k: int)
    requires
        0 <= k < ws.len() - 1,
    ensures
        join_with(ws, sep).subrange(
            piece_start(ws, sep.len() as int, k) + ws[k].len(),
            piece_start(ws, sep.len() as int, k + 1),
        ) == sep,
    decreases ws.len(),
{
    let sl = sep.len() as int;
    let n = ws.len() as int;
    let j = join_with(ws, sep);
    let d = ws.drop_last();
    let jd = join_with(d, sep);
    assert(j == jd + sep + ws.last());
    lemma_join_len(d, sep);
    lemma_piece_start_prefix(ws, d, sl, n - 2);
    lemma_piece_start_prefix(ws, d, sl, k);
    lemma_piece_start_prefix(ws, d, sl, k + 1);
    if k < n - 2 {
        lemma_join_sep(d, sep, k);
        lemma_piece_start_mono(d, sl, k + 1, n - 2);
        lemma_piece_start_mono(d, sl, 0, k);
        assert(d[k] == ws[k]);
        assert(j.subrange(piece_start(ws, sl, k) + ws[k].len(), piece_start(ws, sl, k + 1)) =~= jd.subrange(
            piece_start(d, sl, k) + d[k].len(),
            piece_start(d, sl, k + 1),
        ));
    } else {
        assert(j.subrange(piece_start(ws, sl, k) + ws[k].len(), piece_start(ws, sl, k + 1)) =~= sep);
    }
}

/// Each piece lies inside the joined text.
pub proof fn lemma_join_piece_bounds(ws: Seq<Seq<char>>, sep: Seq<char>, k: int)
    requires
        0 <= k < ws.len(),
    ensures
        0 <= piece_start(ws, sep.len() as int, k),
        piece_start(ws, sep.len() as int, k) + ws[k].len() <= join_with(ws, sep).len(),
{
    let sl = sep.len() as int;
    lemma_join_len(ws, sep);
    lemma_piece_start_mono(ws, sl, 0, k);
    lemma_piece_start_mono(ws, sl, k, ws.len() - 1);
}

/// Each separator lies inside the joined text.
pub proof fn lemma_join_sep_bounds(ws: Seq<Seq<char>>, sep: Seq<char>, k: int)
    requires
        0 <= k < ws.len() - 1,
    ensures
        0 <= piece_start(ws, sep.len() as int, k) + ws[k].len() <= piece_start(ws, sep.len() as int, k + 1),
        piece_start(ws, sep.len() as int, k + 1) <= join_with(ws, sep).len(),
{
    let sl = sep.len() as int;
    lemma_join_len(ws, sep);
    lemma_piece_start_mono(ws, sl, 0, k);
    lemma_piece_start_mono(ws, sl, k + 1, ws.len() - 1);
}

/// The layout of joined pieces: every piece stands whole, in order, at its
/// start; the separator stands between each two neighbours; and nothing else
/// is there, so the length is the pieces' lengths plus the separators.
pub proof fn lemma_join_layout(ws: Seq<Seq<char>>, sep: Seq<char>)
    requires
        ws.len() >= 1,
    ensures
        join_with(ws, sep).len() == piece_start(ws, sep.len() as int, ws.len() - 1) + ws.last().len(),
        forall|k: int|
            0 <= k < ws.len() ==> join_with(ws, sep).subrange(
                piece_start(ws, sep.len() as int, k),
                piece_start(ws, sep.len() as int, k) + ws[k].len(),
            ) == #[trigger] ws[k],
        forall|k: int|
            0 <= k < ws.len() - 1 ==> join_with(ws, sep).subrange(
                #[trigger] piece_start(ws, sep.len() as int, k) + ws[k].len(),
                piece_start(ws, sep.len() as int, k + 1),
            ) == sep,
{
    lemma_join_len(ws, sep);
    assert forall|k: int| 0 <= k < ws.len() implies join_with(ws, sep).subrange(
        piece_start(ws, sep.len() as int, k),
        piece_start(ws, sep.len() as int, k) + ws[k].len(),
    ) == #[trigger] ws[k] by {
        lemma_join_piece(ws, sep, k);
    }
    assert forall|k: int| 0 <= k < ws.len() - 1 implies join_with(ws, sep).subrange(
        #[trigger] piece_start(ws, sep.len() as int, k) + ws[k].len(),
        piece_start(ws, sep.len() as int, k + 1),
    ) == sep by {
        lemma_join_sep(ws, sep, k);
    }
}

/// The words of the first `n` characters of `s`, where a word is a maximal
/// run of characters other than a single space; `k` spaces give `k + 1` words,
/// some of which may be empty.
pub open spec fn words_of_prefix(s: Seq<char>, n: nat) -> Seq<Seq<char>>
    decreases n,
{
    if n == 0 {
        seq![Seq::<char>::empty()]
    } else {
        let p = words_of_prefix(s, (n - 1) as nat);
        if s[n - 1] == ' ' {
            p.push(Seq::<char>::empty())
        } else {
            p.update(p.len() - 1, p.last().push(s[n - 1]))
        }
    }
}

/// The words of `s`, split at every single space.
pub open spec fn words(s: Seq<char>) -> Seq<Seq<char>> {
    words_of_prefix(s, s.len())
}

/// The pieces joined together with `sep` between neighbours.
pub open spec fn join_with(ws: Seq<Seq<char>>, sep: Seq<char>) -> Seq<char>
    decreases ws.len(),
{
    if ws.len() == 0 {
        Seq::<char>::empty()
    } else if ws.len() == 1 {
        ws[0]
    } else {
        join_with(ws.drop_last(), sep) + sep + ws.last()
    }
}

/// The words joined back together with one space between neighbours.
pub open spec fn join_words(ws: Seq<Seq<char>>) -> Seq<char> {
    join_with(ws, seq![' '])
}

pub open spec fn has_no_space(w: Seq<char>) -> bool {
    forall|j: int| 0 <= j < w.len() ==> w[j] != ' '
}

pub open spec fn views_of(ws: Seq<&str>) -> Seq<Seq<char>> {
    ws.map_values(|w: &str| w@)
}

proof fn lemma_join_extend_last(ws: Seq<Seq<char>>, c: char)
    requires
        ws.len() >= 1,
    ensures
        join_words(ws.update(ws.len() - 1, ws.last().push(c))) == join_words(ws).push(c),
{
    let u = ws.update(ws.len() - 1, ws.last().push(c));
    if ws.len() > 1 {
        assert(u.drop_last() =~= ws.drop_last());
    }
    assert(join_with(u, seq![' ']) =~= join_with(ws, seq![' ']).push(c));
}

proof fn lemma_join_push_empty(ws: Seq<Seq<char>>)
    requires
        ws.len() >= 1,
    ensures
        join_words(ws.push(Seq::<char>::empty())) == join_words(ws).push(' '),
{
    let u = ws.push(Seq::<char>::empty());
    assert(u.drop_last() =~= ws);
    assert(join_with(u, seq![' ']) =~= join_with(ws, seq![' ']).push(' '));
}

/// Splitting loses nothing and keeps no separator: the words joined with single
/// spaces give back the text, and no word holds a space.
pub proof fn lemma_words_of_prefix_join(s: Seq<char>, n: nat)
    requires
        n <= s.len(),
    ensures
        join_words(words_of_prefix(s, n)) == s.take(n as int),
        forall|k: int| 0 <= k < words_of_prefix(s, n).len() ==> has_no_space(#[trigger] words_of_prefix(s, n)[k]),
        words_of_prefix(s, n).len() >= 1,
    decreases n,
{
    if n == 0 {
        assert(s.take(0) =~= Seq::<char>::empty());
    } else {
        let m = (n - 1) as nat;
        lemma_words_of_prefix_join(s, m);
        let p = words_of_prefix(s, m);
        assert(s.take(n as int) =~= s.take(m as int).push(s[m as int]));
        if s[m as int] == ' ' {
            lemma_join_push_empty(p);
            let q = p.push(Seq::<char>::empty());
            assert forall|k: int| 0 <= k < q.len() implies has_no_space(#[trigger] q[k]) by {
                if k < p.len() {
                    assert(q[k] == p[k]);
                }
            }
        } else {
            lemma_join_extend_last(p, s[m as int]);
            let q = p.update(p.len() - 1, p.last().push(s[m as int]));
            assert forall|k: int| 0 <= k < q.len() implies has_no_space(#[trigger] q[k]) by {
                if k < p.len() - 1 {
                    assert(q[k] == p[k]);
                } else {
                    assert(has_no_space(p[p.len() - 1]));
                }
            }
        }
    }
}

/// The words of a text joined with single spaces give back the text, and no
/// word holds a space.
pub proof fn lemma_words_join(s: Seq<char>)
    ensures
        join_words(words(s)) == s,
        forall|k: int| 0 <= k < words(s).len() ==> has_no_space(#[trigger] words(s)[k]),
{
    lemma_words_of_prefix_join(s, s.len());
    assert(s.take(s.len() as int) =~= s);
}

proof fn lemma_words_of_prefix_depends_on_prefix(s1: Seq<char>, s2: Seq<char>, n: nat)
    requires
        n <= s1.len(),
        n <= s2.len(),
        s1.take(n as int) == s2.take(n as int),
    ensures
        words_of_prefix(s1, n) == words_of_prefix(s2, n),
    decreases n,
{
    if n > 0 {
        let m = (n - 1) as nat;
        assert(s1.take(m as int) =~= s1.take(n as int).take(m as int));
        assert(s2.take(m as int) =~= s2.take(n as int).take(m as int));
        assert(s1[m as int] == s1.take(n as int)[m as int]);
        assert(s2[m as int] == s2.take(n as int)[m as int]);
        lemma_words_of_prefix_depends_on_prefix(s1, s2, m);
    }
}

proof fn lemma_words_of_prefix_no_space(s: Seq<char>, n: nat)
    requires
        n <= s.len(),
        forall|j: int| 0 <= j < n ==> s[j] != ' ',
    ensures
        words_of_prefix(s, n) == seq![s.take(n as int)],
    decreases n,
{
    if n == 0 {
        assert(s.take(0) =~= Seq::<char>::empty());
    } else {
        let m = (n - 1) as nat;
        lemma_words_of_prefix_no_space(s, m);
        assert(s.take(n as int) =~= s.take(m as int).push(s[m as int]));
        assert(seq![s.take(m as int)].update(0, s.take(n as int)) =~= seq![s.take(n as int)]);
    }
}

proof fn lemma_words_after_space(p: Seq<char>, w: Seq<char>, k: nat)
    requires
        has_no_space(w),
        k <= w.len(),
    ensures
        words_of_prefix(p + seq![' '] + w, p.len() + 1 + k) == words(p).push(w.take(k as int)),
    decreases k,
{
    let s = p + seq![' '] + w;
    if k == 0 {
        assert(s.take(p.len() as int) =~= p.take(p.len() as int));
        lemma_words_of_prefix_depends_on_prefix(s, p, p.len());
        assert(s[p.len() as int] == ' ');
        assert(w.take(0) =~= Seq::<char>::empty());
        assert((p.len() + 1 + k) as nat == (p.len() + 1) as nat);
    } else {
        let j = (k - 1) as nat;
        lemma_words_after_space(p, w, j);
        assert(s[(p.len() + 1 + j) as int] == w[j as int]);
        assert(w.take(k as int) =~= w.take(j as int).push(w[j as int]));
        let q = words(p).push(w.take(j as int));
        assert(q.update(q.len() - 1, q.last().push(w[j as int])) =~= words(p).push(w.take(k as int)));
        assert(((p.len() + 1 + k) - 1) as nat == (p.len() + 1 + j) as nat);
    }
}

/// A text has one split into words: any non-empty list of space-free pieces
/// that joined with single spaces gives the text is its list of words.
pub proof fn lemma_words_unique(s: Seq<char>, ws: Seq<Seq<char>>)
    requires
        ws.len() >= 1,
        join_words(ws) == s,
        forall|k: int| 0 <= k < ws.len() ==> has_no_space(#[trigger] ws[k]),
    ensures
        ws == words(s),
    decreases ws.len(),
{
    if ws.len() == 1 {
        lemma_words_of_prefix_no_space(s, s.len());
        assert(has_no_space(ws[0]));
        assert(s.take(s.len() as int) =~= s);
        assert(ws =~= seq![s]);
    } else {
        let d = ws.drop_last();
        let p = join_words(d);
        let w = ws.last();
        assert(forall|k: int| 0 <= k < d.len() ==> #[trigger] d[k] == ws[k]);
        lemma_words_unique(p, d);
        assert(has_no_space(ws[ws.len() - 1]));
        lemma_words_after_space(p, w, w.len());
        assert(w.take(w.len() as int) =~= w);
        assert(s == p + seq![' '] + w);
        assert((p.len() + 1 + w.len()) as nat == s.len());
        assert(ws =~= d.push(w));
    }
}

/// Splits `s` at every single space, as `str::split(" ")` does: `k` spaces
/// give `k + 1` words, empty ones included.
pub fn split_words<'a>(s: &'a str) -> (ws: Vec<&'a str>)
    ensures
        views_of(ws@) == words(s@),
{
    let n = s.unicode_len();
    let mut ws: Vec<&'a str> = Vec::new();
    let mut start: usize = 0;
    let mut i: usize = 0;
    proof {
        assert(s@.subrange(0, 0) =~= Seq::<char>::empty());
        assert(views_of(ws@).push(s@.subrange(0, 0)) =~= words_of_prefix(s@, 0));
    }
    while i < n
        invariant
            n == s@.len(),
            start <= i <= n,
            words_of_prefix(s@, i as nat) == views_of(ws@).push(s@.subrange(start as int, i as int)),
        decreases n - i,
    {
        let c = s.get_char(i);
        let ghost before = views_of(ws@);
        if c == ' ' {
            let w = s.substring_char(start, i);
            ws.push(w);
            proof {
                assert(views_of(ws@) =~= before.push(s@.subrange(start as int, i as int)));
                assert(s@.subrange((i + 1) as int, (i + 1) as int) =~= Seq::<char>::empty());
            }
            start = i + 1;
            proof {
                assert(words_of_prefix(s@, (i + 1) as nat) =~= views_of(ws@).push(s@.subrange(start as int, (i + 1) as int)));
            }
        } else {
            proof {
                let p = words_of_prefix(s@, i as nat);
                assert(s@.subrange(start as int, (i + 1) as int) =~= s@.subrange(start as int, i as int).push(c));
                assert(p.update(p.len() - 1, p.last().push(c)) =~= before.push(s@.subrange(start as int, (i + 1) as int)));
            }
        }
        i = i + 1;
    }
    let last = s.substring_char(start, n);
    let ghost before = views_of(ws@);
    ws.push(last);
    proof {
        assert(views_of(ws@) =~= before.push(last@));
    }
    ws
}


/// The decimal digit character for `d < 10`.
pub open spec fn digit_char(d: nat) -> char {
    if d == 0 {
        '0'
    } else if d == 1 {
        '1'
    } else if d == 2 {
        '2'
    } else if d == 3 {
        '3'
    } else if d == 4 {
        '4'
    } else if d == 5 {
        '5'
    } else if d == 6 {
        '6'
    } else if d == 7 {
        '7'
    } else if d == 8 {
        '8'
    } else {
        '9'
    }
}

/// The decimal digits of `n`, most significant first, without leading zeros.
pub open spec fn digits(n: nat) -> Seq<char>
    decreases n,
{
    if n < 10 {
        seq![digit_char(n)]
    } else {
        digits(n / 10).push(digit_char(n % 10))
    }
}

/// The decimal text of an integer, with a leading `-` when it is negative.
pub open spec fn decimal(i: int) -> Seq<char> {
    if i < 0 {
        seq!['-'] + digits((-i) as nat)
    } else {
        digits(i as nat)
    }
}

fn digit_text(d: u32) -> (t: &'static str)
    requires
        d < 10,
    ensures
        t@ == seq![digit_char(d as nat)],
{
    if d == 0 {
        proof { reveal_strlit("0"); }
        "0"
    } else if d == 1 {
        proof { reveal_strlit("1"); }
        "1"
    } else if d == 2 {
        proof { reveal_strlit("2"); }
        "2"
    } else if d == 3 {
        proof { reveal_strlit("3"); }
        "3"
    } else if d == 4 {
        proof { reveal_strlit("4"); }
        "4"
    } else if d == 5 {
        proof { reveal_strlit("5"); }
        "5"
    } else if d == 6 {
        proof { reveal_strlit("6"); }
        "6"
    } else if d == 7 {
        proof { reveal_strlit("7"); }
        "7"
    } else if d == 8 {
        proof { reveal_strlit("8"); }
        "8"
    } else {
        proof { reveal_strlit("9"); }
        "9"
    }
}

/// Appends the decimal digits of `n` to `s`.
pub fn push_digits(s: &mut String, n: u32)
    ensures
        final(s)@ == old(s)@ + digits(n as nat),
    decreases n,
{
    if n >= 10 {
        push_digits(s, n / 10);
    }
    s.append(digit_text(n % 10));
}

/// Appends the decimal text of `v` to `s`.
pub fn push_decimal(s: &mut String, v: i32)
    ensures
        final(s)@ == old(s)@ + decimal(v as int),
{
    if v < 0 {
        proof { reveal_strlit("-"); }
        s.append("-");
        let m: i64 = -(v as i64);
        push_digits(s, m as u32);
        assert(s@ =~= old(s)@ + decimal(v as int));
    } else {
        push_digits(s, v as u32);
    }
}

} // verus!
