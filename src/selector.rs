//! Parsing of path selectors of the form `/a[1]/b[2]/text()[1]`.

use vstd::prelude::*;
use vstd::string::*;

verus! {

/// The mathematical form of a path segment: a tag name and a sibling index.
pub type SegmentModel = (Seq<char>, usize);

/// The common start of every selector error message.
pub open spec fn error_prefix() -> Seq<char> {
    "failed parsing xpath at section: "@
}

/// The selector with one leading `/` removed, if it has one.
pub open spec fn strip_leading_slash(s: Seq<char>) -> Seq<char> {
    if s.len() > 0 && s[0] == '/' {
        s.drop_first()
    } else {
        s
    }
}

/// The pieces of `s` between the `/` characters, in order; always at least one.
pub open spec fn split_on_slash(s: Seq<char>) -> Seq<Seq<char>>
    decreases s.len(),
{
    if s.len() == 0 {
        seq![Seq::empty()]
    } else {
        let prev = split_on_slash(s.drop_last());
        if s.last() == '/' {
            prev.push(Seq::empty())
        } else {
            prev.update(prev.len() - 1, prev.last().push(s.last()))
        }
    }
}

/// How many times `c` occurs in `s`.
pub open spec fn count_char(s: Seq<char>, c: char) -> nat
    decreases s.len(),
{
    if s.len() == 0 {
        0
    } else {
        count_char(s.drop_last(), c) + if s.last() == c { 1nat } else { 0nat }
    }
}

/// The position of the first `c` in `s`, or -1 when there is none.
pub open spec fn first_index_of(s: Seq<char>, c: char) -> int
    decreases s.len(),
{
    if s.len() == 0 {
        -1
    } else if first_index_of(s.drop_last(), c) >= 0 {
        first_index_of(s.drop_last(), c)
    } else if s.last() == c {
        s.len() - 1
    } else {
        -1
    }
}

pub open spec fn is_decimal_digit(c: char) -> bool {
    '0' <= c && c <= '9'
}

/// The value of a string of decimal digits.
pub open spec fn digits_value(d: Seq<char>) -> nat
    decreases d.len(),
{
    if d.len() == 0 {
        0
    } else {
        digits_value(d.drop_last()) * 10 + (d.last() as nat - '0' as nat) as nat
    }
}

/// The digits of an index literal: one optional leading `+` is not part of them.
pub open spec fn literal_digits(d: Seq<char>) -> Seq<char> {
    if d.len() > 0 && d[0] == '+' {
        d.drop_first()
    } else {
        d
    }
}

/// Whether `d` is read as an index: an optional `+`, then at least one decimal
/// digit and nothing else, with a value that fits in `usize`.
pub open spec fn is_index_literal(d: Seq<char>) -> bool {
    let body = literal_digits(d);
    &&& body.len() > 0
    &&& forall|i: int| 0 <= i < body.len() ==> is_decimal_digit(#[trigger] body[i])
    &&& digits_value(body) <= usize::MAX
}

/// The message that std's integer parser gives for text that is no index.
pub uninterp spec fn int_error_text(d: Seq<char>) -> Seq<char>;

/// Relies on `str::parse::<usize>` (that is, `usize::from_str`): it accepts an
/// optional `+` followed by decimal digits whose value fits in `usize`, and
/// otherwise fails with a message that depends on the text alone.
#[verifier::external_body]
fn parse_index(d: &str) -> (r: Result<usize, String>)
    ensures
        r is Ok <==> is_index_literal(d@),
        r is Ok ==> r->Ok_0 as nat == digits_value(literal_digits(d@)),
        r is Err ==> r->Err_0@ == int_error_text(d@),
{
    d.parse::<usize>().map_err(|e| e.to_string())
}

/// The outcome of reading an index literal.
pub open spec fn index_of(d: Seq<char>) -> Result<usize, Seq<char>> {
    if is_index_literal(d) {
        Ok(digits_value(literal_digits(d)) as usize)
    } else {
        Err(int_error_text(d))
    }
}

/// Whether `t` has the shape `name[index]`: it ends in `]` and what comes
/// before that holds exactly one `[`.
pub open spec fn has_segment_shape(t: Seq<char>) -> bool {
    t.len() > 0 && t.last() == ']' && count_char(t.drop_last(), '[') == 1
}

/// The tag name of a token of segment shape: what precedes its `[`.
pub open spec fn segment_name(t: Seq<char>) -> Seq<char> {
    t.drop_last().subrange(0, first_index_of(t.drop_last(), '['))
}

/// The index text of a token of segment shape: what stands between `[` and `]`.
pub open spec fn segment_index_text(t: Seq<char>) -> Seq<char> {
    let b = t.drop_last();
    b.subrange(first_index_of(b, '[') + 1, b.len() as int)
}

/// One token of a selector read as a segment, or the error that names it.
pub open spec fn segment_of(t: Seq<char>) -> Result<SegmentModel, Seq<char>> {
    if has_segment_shape(t) {
        match index_of(segment_index_text(t)) {
            Ok(n) => Ok((segment_name(t), n)),
            Err(m) => Err(error_prefix() + t + ": "@ + m),
        }
    } else {
        Err(error_prefix() + t)
    }
}

/// The tokens read in order; the first token that fails gives the error.
pub open spec fn segments_of(toks: Seq<Seq<char>>) -> Result<Seq<SegmentModel>, Seq<char>>
    decreases toks.len(),
{
    if toks.len() == 0 {
        Ok(Seq::empty())
    } else {
        match segments_of(toks.drop_last()) {
            Err(e) => Err(e),
            Ok(v) => match segment_of(toks.last()) {
                Ok(s) => Ok(v.push(s)),
                Err(e) => Err(e),
            },
        }
    }
}

/// What a selector means: its segments, or the first error.
pub open spec fn selector_of(s: Seq<char>) -> Result<Seq<SegmentModel>, Seq<char>> {
    segments_of(split_on_slash(strip_leading_slash(s)))
}

/// The model of an executable list of segments.
pub open spec fn segments_view(v: Seq<(String, usize)>) -> Seq<SegmentModel> {
    v.map_values(|p: (String, usize)| (p.0@, p.1))
}

/// The model of what `parse_xpath` returns.
pub open spec fn parsed_view(r: Result<Vec<(String, usize)>, String>) -> Result<
    Seq<SegmentModel>,
    Seq<char>,
> {
    match r {
        Ok(v) => Ok(segments_view(v@)),
        Err(e) => Err(e@),
    }
}


proof fn lemma_split_nonempty(s: Seq<char>)
    ensures
        split_on_slash(s).len() >= 1,
    decreases s.len(),
{
    if s.len() > 0 {
        lemma_split_nonempty(s.drop_last());
    }
}

/// Splitting a longer prefix keeps every piece of a shorter one but its last.
proof fn lemma_split_extends(s: Seq<char>, i: int, j: int)
    requires
        0 <= i <= j <= s.len(),
    ensures
        split_on_slash(s.subrange(0, i)).len() <= split_on_slash(s.subrange(0, j)).len(),
        split_on_slash(s.subrange(0, j)).subrange(0, split_on_slash(s.subrange(0, i)).len() - 1)
            == split_on_slash(s.subrange(0, i)).drop_last(),
    decreases j - i,
{
    lemma_split_nonempty(s.subrange(0, i));
    if i < j {
        lemma_split_extends(s, i, j - 1);
        let a = split_on_slash(s.subrange(0, i));
        let p = split_on_slash(s.subrange(0, j - 1));
        let q = split_on_slash(s.subrange(0, j));
        lemma_split_nonempty(s.subrange(0, j - 1));
        assert(s.subrange(0, j).drop_last() =~= s.subrange(0, j - 1));
        assert(q.subrange(0, a.len() - 1) =~= p.subrange(0, a.len() - 1));
    } else {
        assert(split_on_slash(s.subrange(0, j)).subrange(0, split_on_slash(s.subrange(0, i)).len() - 1)
            =~= split_on_slash(s.subrange(0, i)).drop_last());
    }
}

/// Once a token fails, tokens after it do not change the outcome.
proof fn lemma_error_persists(toks: Seq<Seq<char>>, more: Seq<Seq<char>>)
    requires
        segments_of(toks) is Err,
        more.len() >= toks.len(),
        more.subrange(0, toks.len() as int) == toks,
    ensures
        segments_of(more) == segments_of(toks),
    decreases more.len(),
{
    if more.len() > toks.len() {
        assert(more.drop_last().subrange(0, toks.len() as int) =~= toks);
        lemma_error_persists(toks, more.drop_last());
    } else {
        assert(more =~= toks);
    }
}

proof fn lemma_segments_view_push(v: Seq<(String, usize)>, p: (String, usize))
    ensures
        segments_view(v.push(p)) == segments_view(v).push((p.0@, p.1)),
{
    assert(segments_view(v.push(p)) =~= segments_view(v).push((p.0@, p.1)));
}

/// Builds `error_prefix() + item`, followed by `": " + detail` when a detail is given.
fn segment_error(item: &str, detail: Option<&str>) -> (r: String)
    ensures
        detail is None ==> r@ == error_prefix() + item@,
        detail is Some ==> r@ == error_prefix() + item@ + ": "@ + detail->Some_0@,
{
    let mut msg = String::from_str("failed parsing xpath at section: ");
    msg.append(item);
    match detail {
        Some(d) => {
            msg.append(": ");
            msg.append(d);
        },
        None => {},
    }
    msg
}

/// The model of what `parse_segment` returns.
pub open spec fn segment_view(r: Result<(String, usize), String>) -> Result<SegmentModel, Seq<char>> {
    match r {
        Ok(p) => Ok((p.0@, p.1)),
        Err(e) => Err(e@),
    }
}

/// Reads one token of the form `name[index]`.
fn parse_segment(item: &str) -> (r: Result<(String, usize), String>)
    ensures
        segment_view(r) == segment_of(item@),
{
    let n = item.unicode_len();
    if n == 0 || item.get_char(n - 1) != ']' {
        return Err(segment_error(item, None));
    }
    let blen = n - 1;
    let ghost b = item@.drop_last();
    let mut count: usize = 0;
    let mut first: usize = 0;
    let mut j: usize = 0;
    while j < blen
        invariant
            j <= blen,
            blen + 1 == n,
            n == item@.len(),
            b == item@.drop_last(),
            count <= j,
            count == count_char(b.subrange(0, j as int), '['),
            first_index_of(b.subrange(0, j as int), '[') == if count == 0 {
                -1
            } else {
                first as int
            },
            count > 0 ==> first < j,
        decreases blen - j,
    {
        let c = item.get_char(j);
        assert(b.subrange(0, j + 1).drop_last() =~= b.subrange(0, j as int));
        if c == '[' {
            if count == 0 {
                first = j;
            }
            count = count + 1;
        }
        j = j + 1;
    }
    assert(b.subrange(0, blen as int) =~= b);
    if count != 1 {
        return Err(segment_error(item, None));
    }
    let name = item.substring_char(0, first);
    let digits = item.substring_char(first + 1, blen);
    assert(name@ =~= segment_name(item@));
    assert(digits@ =~= segment_index_text(item@));
    match parse_index(digits) {
        Ok(v) => Ok((String::from_str(name), v)),
        Err(m) => Err(segment_error(item, Some(m.as_str()))),
    }
}

/// Parses a selector such as `/a[1]/b[2]` into its (tag name, index)
/// segments. One leading `/` is dropped; each `/`-separated token must read
/// `name[index]`, and the first token that does not is reported.
pub fn parse_xpath(xpath: &str) -> (r: Result<Vec<(String, usize)>, String>)
    ensures
        parsed_view(r) == selector_of(xpath@),
{
    let n = xpath.unicode_len();
    let start: usize = if n > 0 && xpath.get_char(0) == '/' {
        1
    } else {
        0
    };
    let s = xpath.substring_char(start, n);
    assert(s@ =~= strip_leading_slash(xpath@));
    let len = s.unicode_len();
    let mut out: Vec<(String, usize)> = Vec::new();
    let mut ts: usize = 0;
    let mut i: usize = 0;
    let ghost mut done: Seq<Seq<char>> = Seq::empty();
    assert(s@.subrange(0, 0) =~= Seq::<char>::empty());
    assert(split_on_slash(s@.subrange(0, 0)) =~= done.push(s@.subrange(0, 0)));
    assert(segments_view(out@) =~= Seq::<SegmentModel>::empty());
    while i < len
        invariant
            ts <= i <= len,
            len == s@.len(),
            split_on_slash(s@.subrange(0, i as int)) == done.push(s@.subrange(ts as int, i as int)),
            segments_of(done) == Ok::<Seq<SegmentModel>, Seq<char>>(segments_view(out@)),
            selector_of(xpath@) == segments_of(split_on_slash(s@)),
        decreases len - i,
    {
        let c = s.get_char(i);
        let ghost pre = s@.subrange(0, i as int);
        assert(s@.subrange(0, i + 1).drop_last() =~= pre);
        if c == '/' {
            let tok = s.substring_char(ts, i);
            let ghost toks = done.push(tok@);
            assert(toks.drop_last() =~= done);
            assert(split_on_slash(s@.subrange(0, i + 1)) == toks.push(Seq::empty()));
            match parse_segment(tok) {
                Ok(seg) => {
                    proof {
                        lemma_segments_view_push(out@, seg);
                    }
                    out.push(seg);
                },
                Err(e) => {
                    proof {
                        lemma_split_extends(s@, i + 1, len as int);
                        assert(s@.subrange(0, len as int) =~= s@);
                        let all = split_on_slash(s@);
                        assert(all.subrange(0, toks.len() as int) =~= toks);
                        lemma_error_persists(toks, all);
                    }
                    return Err(e);
                },
            }
            proof {
                done = toks;
            }
            ts = i + 1;
            assert(s@.subrange(ts as int, i + 1) =~= Seq::<char>::empty());
        } else {
            assert(s@.subrange(ts as int, i + 1) =~= s@.subrange(ts as int, i as int).push(c));
            assert(split_on_slash(s@.subrange(0, i + 1)) =~= done.push(s@.subrange(ts as int, i + 1)));
        }
        i = i + 1;
    }
    assert(s@.subrange(0, len as int) =~= s@);
    let tok = s.substring_char(ts, len);
    assert(split_on_slash(s@) == done.push(tok@));
    assert(done.push(tok@).drop_last() =~= done);
    match parse_segment(tok) {
        Ok(seg) => {
            proof {
                lemma_segments_view_push(out@, seg);
            }
            out.push(seg);
            Ok(out)
        },
        Err(e) => Err(e),
    }
}


/// The character of a decimal digit `d < 10`.
pub open spec fn digit_char(d: nat) -> char {
    if d == 0 { '0' } else if d == 1 { '1' } else if d == 2 { '2' } else if d == 3 { '3' }
    else if d == 4 { '4' } else if d == 5 { '5' } else if d == 6 { '6' } else if d == 7 { '7' }
    else if d == 8 { '8' } else { '9' }
}

/// `n` written in decimal, without leading zeros.
pub open spec fn decimal(n: nat) -> Seq<char>
    decreases n,
{
    if n < 10 {
        seq![digit_char(n)]
    } else {
        decimal(n / 10).push(digit_char(n % 10))
    }
}

/// A segment written back as selector text: `name[index]`.
pub open spec fn render_segment(s: SegmentModel) -> Seq<char> {
    s.0 + seq!['['] + decimal(s.1 as nat) + seq![']']
}

/// A list of segments written back as selector text, joined by `/`.
pub open spec fn render_selector(p: Seq<SegmentModel>) -> Seq<char>
    decreases p.len(),
{
    if p.len() <= 1 {
        if p.len() == 0 { Seq::empty() } else { render_segment(p[0]) }
    } else {
        render_selector(p.drop_last()) + seq!['/'] + render_segment(p.last())
    }
}

/// A tag name that the selector syntax can carry: it holds no `/` and no `[`.
pub open spec fn is_plain_name(name: Seq<char>) -> bool {
    forall|i: int| 0 <= i < name.len() ==> #[trigger] name[i] != '/' && name[i] != '['
}

proof fn lemma_digit_char(d: nat)
    requires
        d < 10,
    ensures
        digit_char(d) as nat == '0' as nat + d,
        is_decimal_digit(digit_char(d)),
{
}

proof fn lemma_decimal(n: nat)
    ensures
        decimal(n).len() >= 1,
        forall|i: int| 0 <= i < decimal(n).len() ==> is_decimal_digit(#[trigger] decimal(n)[i]),
        digits_value(decimal(n)) == n,
    decreases n,
{
    if n < 10 {
        lemma_digit_char(n);
        assert(decimal(n).drop_last() =~= Seq::<char>::empty());
        assert(digits_value(Seq::<char>::empty()) == 0);
        assert(decimal(n).last() == digit_char(n));
    } else {
        lemma_decimal(n / 10);
        lemma_digit_char(n % 10);
        assert(decimal(n).drop_last() =~= decimal(n / 10));
        assert(decimal(n).last() == digit_char(n % 10));
        assert(digits_value(decimal(n)) == digits_value(decimal(n / 10)) * 10 + (n % 10));
        assert(n == (n / 10) * 10 + n % 10);
    }
}

proof fn lemma_count_concat(a: Seq<char>, b: Seq<char>, c: char)
    ensures
        count_char(a + b, c) == count_char(a, c) + count_char(b, c),
    decreases b.len(),
{
    if b.len() == 0 {
        assert(a + b =~= a);
    } else {
        lemma_count_concat(a, b.drop_last(), c);
        assert((a + b).drop_last() =~= a + b.drop_last());
    }
}

proof fn lemma_first_index_concat(a: Seq<char>, b: Seq<char>, c: char)
    requires
        first_index_of(a, c) == -1,
    ensures
        first_index_of(a + b, c) == if first_index_of(b, c) >= 0 {
            a.len() + first_index_of(b, c)
        } else {
            -1
        },
    decreases b.len(),
{
    if b.len() == 0 {
        assert(a + b =~= a);
    } else {
        lemma_first_index_concat(a, b.drop_last(), c);
        assert((a + b).drop_last() =~= a + b.drop_last());
    }
}

proof fn lemma_absent_char(s: Seq<char>, c: char)
    requires
        forall|i: int| 0 <= i < s.len() ==> s[i] != c,
    ensures
        count_char(s, c) == 0,
        first_index_of(s, c) == -1,
    decreases s.len(),
{
    if s.len() > 0 {
        lemma_absent_char(s.drop_last(), c);
    }
}

/// A segment of a plain name, written back, reads as that segment.
proof fn lemma_segment_round_trip(seg: SegmentModel)
    requires
        is_plain_name(seg.0),
    ensures
        segment_of(render_segment(seg)) == Ok::<SegmentModel, Seq<char>>(seg),
{
    let name = seg.0;
    let d = decimal(seg.1 as nat);
    let t = render_segment(seg);
    let b = name + seq!['['] + d;
    lemma_decimal(seg.1 as nat);
    assert(t.drop_last() =~= b);
    lemma_absent_char(name, '[');
    lemma_absent_char(d, '[');
    lemma_count_concat(name, seq!['['], '[');
    lemma_count_concat(name + seq!['['], d, '[');
    assert(seq!['['].drop_last() =~= Seq::<char>::empty());
    lemma_first_index_concat(name, seq!['['], '[');
    assert(first_index_of(Seq::<char>::empty(), '[') == -1);
    assert(seq!['['].last() == '[');
    assert(first_index_of(seq!['['], '[') == 0);
    assert(first_index_of(name + seq!['['], '[') == name.len());
    assert(first_index_of(b, '[') == name.len()) by {
        assert(b.subrange(0, name.len() as int + 1) =~= name + seq!['[']);
        lemma_first_index_prefix(b, name.len() as int + 1);
    }
    assert(count_char(Seq::<char>::empty(), '[') == 0);
    assert(count_char(seq!['['], '[') == 1);
    assert(count_char(b, '[') == 1);
    assert(has_segment_shape(t));
    assert(segment_name(t) =~= name);
    assert(segment_index_text(t) =~= d);
    assert(literal_digits(d) == d);
    assert(is_index_literal(d));
    assert(index_of(d) == Ok::<usize, Seq<char>>(seg.1));
}

/// The first occurrence within a prefix is the first occurrence overall.
proof fn lemma_first_index_prefix(s: Seq<char>, k: int)
    requires
        0 <= k <= s.len(),
        first_index_of(s.subrange(0, k), '[') >= 0,
    ensures
        first_index_of(s, '[') == first_index_of(s.subrange(0, k), '['),
    decreases s.len() - k,
{
    if k < s.len() {
        assert(s.subrange(0, k + 1).drop_last() =~= s.subrange(0, k));
        lemma_first_index_prefix(s, k + 1);
    } else {
        assert(s.subrange(0, k) =~= s);
    }
}

proof fn lemma_split_no_slash(b: Seq<char>)
    requires
        forall|i: int| 0 <= i < b.len() ==> b[i] != '/',
    ensures
        split_on_slash(b) == seq![b],
    decreases b.len(),
{
    if b.len() > 0 {
        lemma_split_no_slash(b.drop_last());
        assert(b[b.len() - 1] != '/');
        assert(b.drop_last().push(b.last()) =~= b);
        assert(seq![b.drop_last()].update(0, b.drop_last().push(b.last())) =~= seq![b]);
    } else {
        assert(b =~= Seq::<char>::empty());
    }
}

proof fn lemma_split_join(a: Seq<char>, b: Seq<char>)
    ensures
        split_on_slash(a + seq!['/'] + b) == split_on_slash(a) + split_on_slash(b),
    decreases b.len(),
{
    let j = a + seq!['/'] + b;
    if b.len() == 0 {
        assert(j.drop_last() =~= a);
        assert(split_on_slash(a) + split_on_slash(b) =~= split_on_slash(a).push(Seq::empty()));
    } else {
        lemma_split_join(a, b.drop_last());
        lemma_split_nonempty(b.drop_last());
        assert(j.drop_last() =~= a + seq!['/'] + b.drop_last());
        let sa = split_on_slash(a);
        let sb = split_on_slash(b.drop_last());
        if b.last() == '/' {
            assert((sa + sb).push(Seq::empty()) =~= sa + sb.push(Seq::empty()));
        } else {
            assert((sa + sb).update((sa + sb).len() - 1, (sa + sb).last().push(b.last()))
                =~= sa + sb.update(sb.len() - 1, sb.last().push(b.last())));
        }
    }
}

proof fn lemma_render_tokens(p: Seq<SegmentModel>)
    requires
        p.len() >= 1,
        forall|i: int| 0 <= i < p.len() ==> is_plain_name(#[trigger] p[i].0),
    ensures
        split_on_slash(render_selector(p)) == p.map_values(|s: SegmentModel| render_segment(s)),
    decreases p.len(),
{
    let last = render_segment(p.last());
    lemma_decimal(p.last().1 as nat);
    assert(is_plain_name(p[p.len() - 1].0));
    assert forall|i: int| 0 <= i < last.len() implies last[i] != '/' by {
        if i < p.last().0.len() {
            assert(last[i] == p.last().0[i]);
        } else if i > p.last().0.len() && i < last.len() - 1 {
            assert(last[i] == decimal(p.last().1 as nat)[i - p.last().0.len() - 1]);
        }
    }
    lemma_split_no_slash(last);
    if p.len() == 1 {
        assert(p.map_values(|s: SegmentModel| render_segment(s)) =~= seq![last]);
    } else {
        assert forall|i: int| 0 <= i < p.drop_last().len() implies is_plain_name(
            #[trigger] p.drop_last()[i].0,
        ) by {
            assert(p.drop_last()[i] == p[i]);
        }
        lemma_render_tokens(p.drop_last());
        lemma_split_join(render_selector(p.drop_last()), last);
        assert(p.map_values(|s: SegmentModel| render_segment(s)) =~= p.drop_last().map_values(
            |s: SegmentModel| render_segment(s),
        ) + seq![last]);
    }
}

proof fn lemma_segments_of_rendered(p: Seq<SegmentModel>)
    requires
        forall|i: int| 0 <= i < p.len() ==> is_plain_name(#[trigger] p[i].0),
    ensures
        segments_of(p.map_values(|s: SegmentModel| render_segment(s))) == Ok::<
            Seq<SegmentModel>,
            Seq<char>,
        >(p),
    decreases p.len(),
{
    let toks = p.map_values(|s: SegmentModel| render_segment(s));
    if p.len() > 0 {
        assert forall|i: int| 0 <= i < p.drop_last().len() implies is_plain_name(
            #[trigger] p.drop_last()[i].0,
        ) by {
            assert(p.drop_last()[i] == p[i]);
        }
        lemma_segments_of_rendered(p.drop_last());
        assert(toks.drop_last() =~= p.drop_last().map_values(|s: SegmentModel| render_segment(s)));
        assert(is_plain_name(p[p.len() - 1].0));
        lemma_segment_round_trip(p.last());
        assert(p.drop_last().push(p.last()) =~= p);
    } else {
        assert(p =~= Seq::<SegmentModel>::empty());
    }
}

/// Writing a non-empty list of segments back as text and parsing that text
/// gives the same segments, whenever no tag name holds `/` or `[`.
pub proof fn lemma_selector_round_trip(p: Seq<SegmentModel>)
    requires
        p.len() >= 1,
        forall|i: int| 0 <= i < p.len() ==> is_plain_name(#[trigger] p[i].0),
    ensures
        selector_of(render_selector(p)) == Ok::<Seq<SegmentModel>, Seq<char>>(p),
{
    let r = render_selector(p);
    lemma_render_tokens(p);
    lemma_segments_of_rendered(p);
    lemma_render_no_leading_slash(p);
    assert(strip_leading_slash(r) == r);
}

proof fn lemma_render_no_leading_slash(p: Seq<SegmentModel>)
    requires
        p.len() >= 1,
        forall|i: int| 0 <= i < p.len() ==> is_plain_name(#[trigger] p[i].0),
    ensures
        render_selector(p).len() > 0,
        render_selector(p)[0] != '/',
    decreases p.len(),
{
    if p.len() == 1 {
        assert(is_plain_name(p[0].0));
        let t = render_segment(p[0]);
        if p[0].0.len() > 0 {
            assert(t[0] == p[0].0[0]);
        } else {
            assert(t[0] == '[');
        }
    } else {
        assert forall|i: int| 0 <= i < p.drop_last().len() implies is_plain_name(
            #[trigger] p.drop_last()[i].0,
        ) by {
            assert(p.drop_last()[i] == p[i]);
        }
        lemma_render_no_leading_slash(p.drop_last());
        let a = render_selector(p.drop_last());
        assert((a + seq!['/'] + render_segment(p.last()))[0] == a[0]);
    }
}

} // verus!
