use vstd::prelude::*;

use crate::text::{chars_of, is_ascii_alnum, is_ascii_alnum_exec, is_ascii_alpha, is_ascii_alpha_exec, starts_with};

verus! {

// ---------------------------------------------------------------------
// Characters
// ---------------------------------------------------------------------

/// The Unicode White_Space property, which `char::is_whitespace` tests.
pub open spec fn is_unicode_whitespace(c: char) -> bool {
    let u = c as u32;
    (0x09 <= u <= 0x0d) || u == 0x20 || u == 0x85 || u == 0xa0 || u == 0x1680 || (0x2000 <= u
        <= 0x200a) || u == 0x2028 || u == 0x2029 || u == 0x202f || u == 0x205f || u == 0x3000
}

/// Whether a character has the White_Space property.
pub fn is_unicode_whitespace_exec(c: char) -> (r: bool)
    ensures
        r == is_unicode_whitespace(c),
{
    let u = c as u32;
    (0x09 <= u && u <= 0x0d) || u == 0x20 || u == 0x85 || u == 0xa0 || u == 0x1680 || (0x2000 <= u
        && u <= 0x200a) || u == 0x2028 || u == 0x2029 || u == 0x202f || u == 0x205f || u == 0x3000
}

/// ASCII lower case of a character (`char::to_ascii_lowercase`).
pub open spec fn ascii_lower(c: char) -> u32 {
    let u = c as u32;
    if 0x41 <= u <= 0x5a {
        (u + 0x20) as u32
    } else {
        u
    }
}

/// Equality up to ASCII case (`str::eq_ignore_ascii_case`).
pub open spec fn eq_ignore_ascii_case(a: Seq<char>, b: Seq<char>) -> bool {
    a.len() == b.len() && forall|i: int| 0 <= i < a.len() ==> ascii_lower(#[trigger] a[i]) == ascii_lower(b[i])
}

/// Whether two texts are equal ignoring ASCII case.
pub fn eq_ignore_ascii_case_exec(a: &[char], b: &[char]) -> (r: bool)
    ensures
        r == eq_ignore_ascii_case(a@, b@),
{
    if a.len() != b.len() {
        return false;
    }
    let mut i: usize = 0;
    while i < a.len()
        invariant
            a@.len() == b@.len(),
            i <= a@.len(),
            forall|j: int| 0 <= j < i ==> ascii_lower(#[trigger] a@[j]) == ascii_lower(b@[j]),
        decreases a@.len() - i,
    {
        let x = a[i] as u32;
        let y = b[i] as u32;
        let lx = if 0x41 <= x && x <= 0x5a { x + 0x20 } else { x };
        let ly = if 0x41 <= y && y <= 0x5a { y + 0x20 } else { y };
        if lx != ly {
            return false;
        }
        i = i + 1;
    }
    true
}

/// A character that may start an identifier: an ASCII letter or '_'.
pub open spec fn is_identifier_start(c: char) -> bool {
    is_ascii_alpha(c) || c == '_'
}

/// A symbolic secret name: an ASCII letter or '_' followed by ASCII
/// letters, digits and '_'.
pub open spec fn is_secret_name(name: Seq<char>) -> bool {
    name.len() > 0 && is_identifier_start(name[0]) && forall|i: int|
        0 <= i < name.len() ==> is_ascii_alnum(#[trigger] name[i]) || name[i] == '_'
}

/// Whether a name can be a symbolic secret name.
pub fn is_secret_name_exec(name: &[char]) -> (r: bool)
    ensures
        r == is_secret_name(name@),
{
    if name.len() == 0 || !(is_ascii_alpha_exec(name[0]) || name[0] == '_') {
        return false;
    }
    let mut i: usize = 0;
    while i < name.len()
        invariant
            i <= name@.len(),
            forall|j: int| 0 <= j < i ==> is_ascii_alnum(#[trigger] name@[j]) || name@[j] == '_',
        decreases name@.len() - i,
    {
        if !(is_ascii_alnum_exec(name[i]) || name[i] == '_') {
            return false;
        }
        i = i + 1;
    }
    true
}

/// A copy of `text[from..to]`.
pub fn sub_chars(text: &[char], from: usize, to: usize) -> (r: Vec<char>)
    requires
        from <= to <= text@.len(),
    ensures
        r@ == text@.subrange(from as int, to as int),
{
    let mut r: Vec<char> = Vec::new();
    let mut i: usize = from;
    while i < to
        invariant
            from <= i <= to,
            to <= text@.len(),
            r@ == text@.subrange(from as int, i as int),
        decreases to - i,
    {
        r.push(text[i]);
        assert(r@ =~= text@.subrange(from as int, i + 1));
        i = i + 1;
    }
    r
}

/// Whether `text[pos..]` begins with `pat`.
pub fn matches_at(text: &[char], pos: usize, pat: &[char]) -> (r: bool)
    requires
        pos <= text@.len(),
    ensures
        r == starts_with(text@.skip(pos as int), pat@),
{
    let n = text.len();
    if pat.len() > n - pos {
        return false;
    }
    let mut i: usize = 0;
    while i < pat.len()
        invariant
            n == text@.len(),
            pos + pat@.len() <= text@.len(),
            i <= pat@.len(),
            forall|j: int| 0 <= j < i ==> text@[pos + j] == pat@[j],
        decreases pat@.len() - i,
    {
        if text[pos + i] != pat[i] {
            assert(text@.skip(pos as int).take(pat@.len() as int)[i as int] != pat@[i as int]);
            return false;
        }
        i = i + 1;
    }
    assert(text@.skip(pos as int).take(pat@.len() as int) =~= pat@);
    true
}

// ---------------------------------------------------------------------
// Expression regions
// ---------------------------------------------------------------------

/// The text that opens an expression.
pub open spec fn expression_open() -> Seq<char> {
    seq!['$', '{', '{']
}

/// The text that closes an expression.
pub open spec fn expression_close() -> Seq<char> {
    seq!['}', '}']
}

/// The position of the first occurrence of `pat` in `s`, or -1.
pub open spec fn find(s: Seq<char>, pat: Seq<char>) -> int
    decreases s.len(),
{
    if starts_with(s, pat) {
        0
    } else if s.len() == 0 {
        -1
    } else {
        let r = find(s.drop_first(), pat);
        if r < 0 {
            -1
        } else {
            r + 1
        }
    }
}

/// Where an expression body starting at `s[from..]` ends: the first "}}"
/// outside single quotes, or `s.len()` when there is none.
pub open spec fn close_index(s: Seq<char>, from: int, quoted: bool) -> int
    decreases s.len() - from,
{
    if from >= s.len() || from < 0 {
        s.len() as int
    } else if s[from] == '\'' {
        close_index(s, from + 1, !quoted)
    } else if !quoted && starts_with(s.skip(from), expression_close()) {
        from
    } else {
        close_index(s, from + 1, quoted)
    }
}

/// The bodies of the `${{ ... }}` expressions in `text`, in order. A body
/// ends at the first "}}" outside a single-quoted string; an unterminated
/// expression ends the scan.
pub open spec fn expression_regions(text: Seq<char>) -> Seq<Seq<char>>
    decreases text.len(),
{
    let start = find(text, expression_open());
    if start < 0 || start + 3 > text.len() {
        Seq::empty()
    } else {
        let rest = text.skip(start + 3);
        let end = close_index(rest, 0, false);
        if end < 0 || end + 2 > rest.len() {
            Seq::empty()
        } else {
            seq![rest.take(end)] + expression_regions(rest.skip(end + 2))
        }
    }
}

proof fn lemma_find_bounds(s: Seq<char>, pat: Seq<char>)
    ensures
        find(s, pat) >= -1,
        find(s, pat) >= 0 ==> find(s, pat) + pat.len() <= s.len() && starts_with(
            s.skip(find(s, pat)),
            pat,
        ),
        find(s, pat) >= 0 ==> forall|j: int| 0 <= j < find(s, pat) ==> !starts_with(s.skip(j), pat),
        find(s, pat) < 0 ==> forall|j: int| 0 <= j <= s.len() ==> !starts_with(s.skip(j), pat),
    decreases s.len(),
{
    if starts_with(s, pat) {
        assert(s.skip(0) =~= s);
    } else if s.len() == 0 {
        assert(s.skip(0) =~= s);
    } else {
        lemma_find_bounds(s.drop_first(), pat);
        assert forall|j: int| 0 < j <= s.len() implies s.skip(j) =~= s.drop_first().skip(j - 1) by {}
        assert(s.skip(0) =~= s);
        let r = find(s.drop_first(), pat);
        if r >= 0 {
            assert(s.skip(r + 1) =~= s.drop_first().skip(r));
        }
    }
}

/// The first occurrence of `pat` at or after `pos`, as an absolute position.
fn find_from(text: &[char], pos: usize, pat: &[char]) -> (r: Option<usize>)
    requires
        pos <= text@.len(),
        pat@.len() > 0,
    ensures
        match r {
            Some(i) => find(text@.skip(pos as int), pat@) == i - pos && pos <= i,
            None => find(text@.skip(pos as int), pat@) < 0,
        },
{
    let mut i: usize = pos;
    while i < text.len()
        invariant
            pos <= i <= text@.len(),
            pat@.len() > 0,
            forall|j: int| pos <= j < i ==> !starts_with(#[trigger] text@.skip(j), pat@),
        decreases text@.len() - i,
    {
        if matches_at(text, i, pat) {
            proof {
                assert forall|j: int| 0 <= j < i - pos implies !starts_with(
                    text@.skip(pos as int).skip(j),
                    pat@,
                ) by {
                    assert(text@.skip(pos as int).skip(j) =~= text@.skip(pos + j));
                }
                assert(text@.skip(pos as int).skip(i - pos) =~= text@.skip(i as int));
                lemma_find_first(text@.skip(pos as int), pat@, i - pos);
            }
            return Some(i);
        }
        i = i + 1;
    }
    proof {
        let s = text@.skip(pos as int);
        lemma_find_bounds(s, pat@);
        if find(s, pat@) >= 0 {
            let k = find(s, pat@);
            assert(s.skip(k) =~= text@.skip(pos + k));
        }
    }
    None
}

proof fn lemma_find_first(s: Seq<char>, pat: Seq<char>, k: int)
    requires
        0 <= k <= s.len(),
        starts_with(s.skip(k), pat),
        forall|j: int| 0 <= j < k ==> !starts_with(s.skip(j), pat),
    ensures
        find(s, pat) == k,
    decreases k,
{
    assert(s.skip(0) =~= s);
    if k > 0 {
        assert forall|j: int| 0 <= j < k - 1 implies !starts_with(s.drop_first().skip(j), pat) by {
            assert(s.drop_first().skip(j) =~= s.skip(j + 1));
        }
        assert(s.drop_first().skip(k - 1) =~= s.skip(k));
        lemma_find_first(s.drop_first(), pat, k - 1);
    }
}

/// The end of an expression body that starts at `from`: `Some` of the
/// absolute position of the closing "}}", or `None` when unterminated.
fn close_from(text: &[char], from: usize) -> (r: Option<usize>)
    requires
        from <= text@.len(),
    ensures
        match r {
            Some(e) => from <= e && e + 2 <= text@.len() && close_index(text@.skip(from as int), 0, false)
                == e - from,
            None => close_index(text@.skip(from as int), 0, false) == text@.len() - from,
        },
{
    let ghost s = text@.skip(from as int);
    let close = vec!['}', '}'];
    assert(close@ =~= expression_close());
    let mut quoted = false;
    let mut i: usize = from;
    while i < text.len()
        invariant
            from <= i <= text@.len(),
            s == text@.skip(from as int),
            close@ == expression_close(),
            close_index(s, 0, false) == close_index(s, i - from, quoted),
        decreases text@.len() - i,
    {
        assert(s[i - from] == text@[i as int]);
        assert(s.skip(i - from) =~= text@.skip(i as int));
        if text[i] == '\'' {
            quoted = !quoted;
        } else if !quoted && matches_at(text, i, close.as_slice()) {
            assert(close@.len() == 2);
            return Some(i);
        }
        i = i + 1;
    }
    None
}

/// The bodies of the `${{ ... }}` expressions in a text.
pub fn expression_regions_exec(text: &[char]) -> (regions: Vec<Vec<char>>)
    ensures
        regions@.map_values(|r: Vec<char>| r@) == expression_regions(text@),
{
    let open = vec!['$', '{', '{'];
    assert(open@ =~= expression_open());
    let mut regions: Vec<Vec<char>> = Vec::new();
    let mut pos: usize = 0;
    let n = text.len();
    assert(text@.skip(0) =~= text@);
    loop
        invariant
            n == text@.len(),
            pos <= text@.len(),
            open@ == expression_open(),
            regions@.map_values(|r: Vec<char>| r@) + expression_regions(text@.skip(pos as int))
                == expression_regions(text@),
        decreases text@.len() - pos,
    {
        let ghost rem = text@.skip(pos as int);
        match find_from(text, pos, open.as_slice()) {
            None => {
                assert(expression_regions(rem) =~= Seq::<Seq<char>>::empty());
                assert(regions@.map_values(|r: Vec<char>| r@) + Seq::<Seq<char>>::empty()
                    =~= regions@.map_values(|r: Vec<char>| r@));
                return regions;
            },
            Some(start) => {
                proof {
                    lemma_find_bounds(rem, open@);
                    assert(open@.len() == 3);
                }
                let body = start + 3;
                assert(rem.skip(start - pos + 3) =~= text@.skip(body as int));
                match close_from(text, body) {
                    None => {
                        assert(expression_regions(rem) =~= Seq::<Seq<char>>::empty());
                        assert(regions@.map_values(|r: Vec<char>| r@) + Seq::<Seq<char>>::empty()
                            =~= regions@.map_values(|r: Vec<char>| r@));
                        return regions;
                    },
                    Some(end) => {
                        let region = sub_chars(text, body, end);
                        let ghost after = text@.skip(body as int);
                        assert(region@ =~= after.take(end - body));
                        assert(after.skip(end - body + 2) =~= text@.skip(end + 2));
                        assert(expression_regions(rem) == seq![region@] + expression_regions(
                            text@.skip(end + 2),
                        ));
                        let ghost prev = regions@;
                        regions.push(region);
                        assert(regions@.map_values(|r: Vec<char>| r@) =~= prev.map_values(
                            |r: Vec<char>| r@,
                        ).push(region@));
                        assert(regions@.map_values(|r: Vec<char>| r@) + expression_regions(
                            text@.skip(end + 2),
                        ) =~= prev.map_values(|r: Vec<char>| r@) + expression_regions(rem));
                        pos = end + 2;
                    },
                }
            },
        }
    }
}

// ---------------------------------------------------------------------
// Expression tokens
// ---------------------------------------------------------------------

/// The number of leading White_Space characters.
pub open spec fn leading_whitespace(s: Seq<char>) -> int
    decreases s.len(),
{
    if s.len() > 0 && is_unicode_whitespace(s[0]) {
        1 + leading_whitespace(s.drop_first())
    } else {
        0
    }
}

pub proof fn lemma_leading_whitespace(s: Seq<char>)
    ensures
        0 <= leading_whitespace(s) <= s.len(),
        forall|i: int| 0 <= i < leading_whitespace(s) ==> is_unicode_whitespace(#[trigger] s[i]),
        leading_whitespace(s) < s.len() ==> !is_unicode_whitespace(s[leading_whitespace(s)]),
    decreases s.len(),
{
    if s.len() > 0 && is_unicode_whitespace(s[0]) {
        lemma_leading_whitespace(s.drop_first());
        assert forall|i: int| 0 <= i < leading_whitespace(s) implies is_unicode_whitespace(
            #[trigger] s[i],
        ) by {
            if i > 0 {
                assert(s[i] == s.drop_first()[i - 1]);
            }
        }
    }
}

/// `str::trim_start`: the text without its leading White_Space.
pub open spec fn trim_start(s: Seq<char>) -> Seq<char> {
    s.skip(leading_whitespace(s))
}

/// The number of trailing White_Space characters.
pub open spec fn trailing_whitespace(s: Seq<char>) -> int
    decreases s.len(),
{
    if s.len() > 0 && is_unicode_whitespace(s.last()) {
        1 + trailing_whitespace(s.drop_last())
    } else {
        0
    }
}

/// `str::trim`: the text without its leading and trailing White_Space.
pub open spec fn trim(s: Seq<char>) -> Seq<char> {
    let t = trim_start(s);
    t.take(t.len() - trailing_whitespace(t))
}

proof fn lemma_trailing_whitespace_bound(s: Seq<char>)
    ensures
        0 <= trailing_whitespace(s) <= s.len(),
    decreases s.len(),
{
    if s.len() > 0 && is_unicode_whitespace(s.last()) {
        lemma_trailing_whitespace_bound(s.drop_last());
    }
}

/// The text without its leading and trailing White_Space.
pub fn trim_chars(s: &[char]) -> (r: Vec<char>)
    ensures
        r@ == trim(s@),
{
    let n = s.len();
    let mut start: usize = 0;
    assert(s@.skip(0) =~= s@);
    while start < n && is_unicode_whitespace_exec(s[start])
        invariant
            n == s@.len(),
            start <= n,
            leading_whitespace(s@) == start + leading_whitespace(s@.skip(start as int)),
        decreases n - start,
    {
        assert(s@.skip(start as int).drop_first() =~= s@.skip(start + 1));
        start = start + 1;
    }
    proof {
        lemma_leading_whitespace(s@.skip(start as int));
        if start < n {
            assert(s@.skip(start as int)[0] == s@[start as int]);
        }
        assert(trim_start(s@) =~= s@.skip(start as int));
    }
    let ghost t = s@.skip(start as int);
    let mut end: usize = n;
    assert(t.take(t.len() as int) =~= t);
    while end > start && is_unicode_whitespace_exec(s[end - 1])
        invariant
            n == s@.len(),
            start <= end <= n,
            t == s@.skip(start as int),
            trailing_whitespace(t) == (n - end) + trailing_whitespace(t.take(end - start)),
        decreases end - start,
    {
        let ghost u = t.take(end - start);
        assert(u.last() == s@[end - 1]);
        assert(u.drop_last() =~= t.take(end - 1 - start));
        end = end - 1;
    }
    proof {
        lemma_trailing_whitespace_bound(t.take(end - start));
        if end > start {
            assert(t.take(end - start).last() == s@[end - 1]);
        }
    }
    let r = sub_chars(s, start, end);
    assert(r@ =~= trim(s@));
    r
}

/// Where a single-quoted token that starts at `s[0]` ends (one past its
/// closing quote; a doubled quote stays inside), scanning from `end`.
pub open spec fn quoted_token_end(s: Seq<char>, end: int) -> int
    decreases s.len() - end,
{
    if end >= s.len() || end < 0 {
        s.len() as int
    } else if s[end] == '\'' {
        if end + 1 < s.len() && s[end + 1] == '\'' {
            quoted_token_end(s, end + 2)
        } else {
            end + 1
        }
    } else {
        quoted_token_end(s, end + 1)
    }
}

/// A character of a name token: ASCII letter, digit, '_' or '-'.
pub open spec fn is_word_char(c: char) -> bool {
    is_ascii_alnum(c) || c == '_' || c == '-'
}

/// Where the run of name characters starting at `i` ends.
pub open spec fn word_end(s: Seq<char>, i: int) -> int
    decreases s.len() - i,
{
    if 0 <= i < s.len() && is_word_char(s[i]) {
        word_end(s, i + 1)
    } else {
        i
    }
}

/// The length of the token at the start of a non-empty text: a quoted
/// string, a name, or one character.
pub open spec fn token_len(s: Seq<char>) -> int {
    if s[0] == '\'' {
        quoted_token_end(s, 1)
    } else if is_ascii_alnum(s[0]) || s[0] == '_' {
        word_end(s, 0)
    } else {
        1
    }
}

proof fn lemma_quoted_token_end(s: Seq<char>, end: int)
    requires
        1 <= end <= s.len(),
    ensures
        end <= quoted_token_end(s, end) <= s.len(),
    decreases s.len() - end,
{
    if end < s.len() {
        if s[end] == '\'' {
            if end + 1 < s.len() && s[end + 1] == '\'' {
                lemma_quoted_token_end(s, end + 2);
            }
        } else {
            lemma_quoted_token_end(s, end + 1);
        }
    }
}

proof fn lemma_word_end(s: Seq<char>, i: int)
    requires
        0 <= i <= s.len(),
    ensures
        i <= word_end(s, i) <= s.len(),
    decreases s.len() - i,
{
    if i < s.len() && is_word_char(s[i]) {
        lemma_word_end(s, i + 1);
    }
}

pub proof fn lemma_token_len(s: Seq<char>)
    requires
        s.len() > 0,
    ensures
        1 <= token_len(s) <= s.len(),
{
    if s[0] == '\'' {
        lemma_quoted_token_end(s, 1);
    } else if is_ascii_alnum(s[0]) || s[0] == '_' {
        lemma_word_end(s, 0);
        assert(is_word_char(s[0]));
        lemma_word_end(s, 1);
    }
}

/// The tokens of an expression body, in order, with White_Space between
/// tokens dropped.
pub open spec fn expression_tokens(e: Seq<char>) -> Seq<Seq<char>>
    decreases e.len(),
{
    let t = trim_start(e);
    if t.len() == 0 || leading_whitespace(e) < 0 || leading_whitespace(e) > e.len() {
        Seq::empty()
    } else {
        let n = token_len(t);
        if n < 1 || n > t.len() {
            Seq::empty()
        } else {
            seq![t.take(n)] + expression_tokens(t.skip(n))
        }
    }
}

fn quoted_token_end_exec(s: &[char], from: usize) -> (r: usize)
    requires
        from < s@.len(),
        s@[from as int] == '\'',
    ensures
        r - from == quoted_token_end(s@.skip(from as int), 1),
        from < r <= s@.len(),
{
    let ghost t = s@.skip(from as int);
    let n = s.len();
    let mut end = from + 1;
    proof {
        lemma_quoted_token_end(t, 1);
    }
    while end < n
        invariant
            n == s@.len(),
            t == s@.skip(from as int),
            from < end <= n,
            quoted_token_end(t, 1) == quoted_token_end(t, end - from),
        decreases n - end,
    {
        assert(t[end - from] == s@[end as int]);
        if s[end] == '\'' {
            if end + 1 < n && s[end + 1] == '\'' {
                assert(t[end - from + 1] == s@[end + 1]);
                end = end + 2;
            } else {
                proof {
                    if end + 1 < n {
                        assert(t[end - from + 1] == s@[end + 1]);
                    }
                }
                return end + 1;
            }
        } else {
            end = end + 1;
        }
    }
    end
}

fn word_end_exec(s: &[char], from: usize) -> (r: usize)
    requires
        from <= s@.len(),
    ensures
        r - from == word_end(s@.skip(from as int), 0),
        from <= r <= s@.len(),
{
    let ghost t = s@.skip(from as int);
    let mut i: usize = from;
    while i < s.len() && (is_ascii_alnum_exec(s[i]) || s[i] == '_' || s[i] == '-')
        invariant
            t == s@.skip(from as int),
            from <= i <= s@.len(),
            word_end(t, 0) == word_end(t, i - from),
        decreases s@.len() - i,
    {
        assert(t[i - from] == s@[i as int]);
        i = i + 1;
    }
    proof {
        if i < s@.len() {
            assert(t[i - from] == s@[i as int]);
        }
    }
    i
}

/// The tokens of an expression body.
pub fn expression_tokens_exec(e: &[char]) -> (tokens: Vec<Vec<char>>)
    ensures
        tokens@.map_values(|t: Vec<char>| t@) == expression_tokens(e@),
{
    let mut tokens: Vec<Vec<char>> = Vec::new();
    let n = e.len();
    let mut pos: usize = 0;
    assert(e@.skip(0) =~= e@);
    loop
        invariant
            n == e@.len(),
            pos <= n,
            tokens@.map_values(|t: Vec<char>| t@) + expression_tokens(e@.skip(pos as int))
                == expression_tokens(e@),
        decreases n - pos,
    {
        let ghost rem = e@.skip(pos as int);
        let start = pos;
        while pos < n && is_unicode_whitespace_exec(e[pos])
            invariant
                n == e@.len(),
                start <= pos <= n,
                rem == e@.skip(start as int),
                leading_whitespace(rem) == (pos - start) + leading_whitespace(e@.skip(pos as int)),
            decreases n - pos,
        {
            assert(e@.skip(pos as int).drop_first() =~= e@.skip(pos + 1));
            pos = pos + 1;
        }
        proof {
            lemma_leading_whitespace(e@.skip(pos as int));
            if pos < n {
                assert(e@.skip(pos as int)[0] == e@[pos as int]);
            }
            lemma_leading_whitespace(rem);
            assert(trim_start(rem) =~= e@.skip(pos as int));
        }
        if pos == n {
            assert(expression_tokens(rem) =~= Seq::<Seq<char>>::empty());
            assert(tokens@.map_values(|t: Vec<char>| t@) + Seq::<Seq<char>>::empty()
                =~= tokens@.map_values(|t: Vec<char>| t@));
            return tokens;
        }
        let ghost t = e@.skip(pos as int);
        let first = e[pos];
        assert(t[0] == first);
        let end = if first == '\'' {
            quoted_token_end_exec(e, pos)
        } else if is_ascii_alnum_exec(first) || first == '_' {
            word_end_exec(e, pos)
        } else {
            pos + 1
        };
        proof {
            lemma_token_len(t);
        }
        assert(end - pos == token_len(t));
        let token = sub_chars(e, pos, end);
        assert(token@ =~= t.take(end - pos));
        assert(t.skip(end - pos) =~= e@.skip(end as int));
        assert(expression_tokens(rem) == seq![token@] + expression_tokens(e@.skip(end as int)));
        let ghost prev = tokens@;
        tokens.push(token);
        assert(tokens@.map_values(|t: Vec<char>| t@) =~= prev.map_values(|t: Vec<char>| t@).push(token@));
        assert(tokens@.map_values(|t: Vec<char>| t@) + expression_tokens(e@.skip(end as int))
            =~= prev.map_values(|t: Vec<char>| t@) + expression_tokens(rem));
        pos = end;
    }
}

// ---------------------------------------------------------------------
// Context accesses
// ---------------------------------------------------------------------

/// The access that token `i` makes of the root context `context`: `None`
/// when it is no such access; `Some(Some(p))` for a static property `p`;
/// `Some(None)` for a whole-context or dynamic access.
pub open spec fn access_at(tokens: Seq<Seq<char>>, i: int, context: Seq<char>) -> Option<Option<Seq<char>>> {
    if !eq_ignore_ascii_case(tokens[i], context) || (i > 0 && tokens[i - 1] == seq!['.']) {
        None
    } else if i + 1 < tokens.len() && tokens[i + 1] == seq!['.'] {
        if i + 2 < tokens.len() && tokens[i + 2].len() > 0 && is_identifier_start(tokens[i + 2][0]) {
            Some(Some(tokens[i + 2]))
        } else {
            Some(None)
        }
    } else {
        Some(None)
    }
}

/// The accesses that tokens `i..` make, in order.
pub open spec fn accesses_from(tokens: Seq<Seq<char>>, i: int, context: Seq<char>) -> Seq<Option<Seq<char>>>
    decreases tokens.len() - i,
{
    if i < 0 || i >= tokens.len() {
        Seq::empty()
    } else {
        match access_at(tokens, i, context) {
            Some(a) => seq![a] + accesses_from(tokens, i + 1, context),
            None => accesses_from(tokens, i + 1, context),
        }
    }
}

/// The accesses of a context in each region, in order.
pub open spec fn region_accesses(regions: Seq<Seq<char>>, context: Seq<char>) -> Seq<Option<Seq<char>>>
    decreases regions.len(),
{
    if regions.len() == 0 {
        Seq::empty()
    } else {
        accesses_from(expression_tokens(regions[0]), 0, context) + region_accesses(
            regions.drop_first(),
            context,
        )
    }
}

/// The root-context property accesses within the expressions of `text`,
/// in order: `Some(p)` for a static property `p`, `None` for a
/// whole-context or dynamic access that names no single property.
pub open spec fn context_accesses(text: Seq<char>, context: Seq<char>) -> Seq<Option<Seq<char>>> {
    region_accesses(expression_regions(text), context)
}

/// The texts of accesses as found.
pub open spec fn access_views(v: Seq<Option<Vec<char>>>) -> Seq<Option<Seq<char>>> {
    v.map_values(|a: Option<Vec<char>>| match a {
        Some(p) => Some(p@),
        None => None,
    })
}

fn is_dot(token: &Vec<char>) -> (r: bool)
    ensures
        r == (token@ == seq!['.']),
{
    let r = token.len() == 1 && token[0] == '.';
    proof {
        if r {
            assert(token@ =~= seq!['.']);
        }
    }
    r
}

fn copy_chars(v: &Vec<char>) -> (r: Vec<char>)
    ensures
        r@ == v@,
{
    let r = sub_chars(v.as_slice(), 0, v.len());
    assert(r@ =~= v@);
    r
}

fn tokens_accesses(tokens: &Vec<Vec<char>>, context: &[char], out: &mut Vec<Option<Vec<char>>>)
    ensures
        access_views(final(out)@) == access_views(old(out)@) + accesses_from(
            tokens@.map_values(|t: Vec<char>| t@),
            0,
            context@,
        ),
{
    let ghost tv = tokens@.map_values(|t: Vec<char>| t@);
    let ghost start = access_views(out@);
    let mut i: usize = 0;
    while i < tokens.len()
        invariant
            tv == tokens@.map_values(|t: Vec<char>| t@),
            i <= tokens@.len(),
            start + accesses_from(tv, 0, context@) == access_views(out@) + accesses_from(tv, i as int, context@),
        decreases tokens@.len() - i,
    {
        assert(tv[i as int] == tokens@[i as int]@);
        let matches_context = eq_ignore_ascii_case_exec(tokens[i].as_slice(), context);
        let after_dot = i > 0 && is_dot(&tokens[i - 1]);
        proof {
            if i > 0 {
                assert(tv[i - 1] == tokens@[i - 1]@);
            }
        }
        let ghost prev = access_views(out@);
        if matches_context && !after_dot {
            let mut property: Option<Vec<char>> = None;
            if i + 1 < tokens.len() && is_dot(&tokens[i + 1]) {
                assert(tv[i + 1] == tokens@[i + 1]@);
                if i + 2 < tokens.len() && tokens[i + 2].len() > 0 && (is_ascii_alpha_exec(tokens[i + 2][0]) || tokens[i + 2][0] == '_') {
                    assert(tv[i + 2] == tokens@[i + 2]@);
                    property = Some(copy_chars(&tokens[i + 2]));
                } else {
                    proof {
                        if i + 2 < tokens@.len() {
                            assert(tv[i + 2] == tokens@[i + 2]@);
                        }
                    }
                }
            } else {
                proof {
                    if i + 1 < tokens@.len() {
                        assert(tv[i + 1] == tokens@[i + 1]@);
                    }
                }
            }
            let ghost pv = access_views(seq![property])[0];
            assert(access_at(tv, i as int, context@) == Some(pv));
            out.push(property);
            assert(access_views(out@) =~= prev.push(pv));
            assert(accesses_from(tv, i as int, context@) == seq![pv] + accesses_from(tv, i + 1, context@));
            assert(access_views(out@) + accesses_from(tv, i + 1, context@) =~= prev + accesses_from(tv, i as int, context@));
        } else {
            assert(access_at(tv, i as int, context@) is None);
        }
        i = i + 1;
    }
    assert(access_views(out@) + accesses_from(tv, i as int, context@) =~= access_views(out@));
}

/// The root-context property accesses within the expressions of a text.
pub fn context_accesses_exec(text: &[char], context: &[char]) -> (accesses: Vec<Option<Vec<char>>>)
    ensures
        access_views(accesses@) == context_accesses(text@, context@),
{
    let regions = expression_regions_exec(text);
    let ghost rv = regions@.map_values(|r: Vec<char>| r@);
    let mut accesses: Vec<Option<Vec<char>>> = Vec::new();
    let mut i: usize = 0;
    assert(rv.skip(0) =~= rv);
    assert(access_views(accesses@) =~= Seq::<Option<Seq<char>>>::empty());
    while i < regions.len()
        invariant
            rv == regions@.map_values(|r: Vec<char>| r@),
            rv == expression_regions(text@),
            i <= regions@.len(),
            access_views(accesses@) + region_accesses(rv.skip(i as int), context@) == region_accesses(rv, context@),
        decreases regions@.len() - i,
    {
        let tokens = expression_tokens_exec(regions[i].as_slice());
        let ghost prev = access_views(accesses@);
        tokens_accesses(&tokens, context, &mut accesses);
        proof {
            assert(rv.skip(i as int)[0] == regions@[i as int]@);
            assert(rv.skip(i as int).drop_first() =~= rv.skip(i + 1));
        }
        i = i + 1;
    }
    assert(rv.skip(i as int) =~= Seq::<Seq<char>>::empty());
    assert(access_views(accesses@) + Seq::<Option<Seq<char>>>::empty() =~= access_views(accesses@));
    accesses
}

/// A property of the `github` context that attackers can control.
pub open spec fn is_untrusted_property(p: Seq<char>) -> bool {
    eq_ignore_ascii_case(p, "event"@) || eq_ignore_ascii_case(p, "head_ref"@) || eq_ignore_ascii_case(
        p,
        "base_ref"@,
    ) || eq_ignore_ascii_case(p, "actor"@) || eq_ignore_ascii_case(p, "triggering_actor"@)
}

/// Whether a script interpolates an attacker-controlled `github` property,
/// or the whole or a dynamic part of the `github` context.
pub open spec fn has_untrusted_context(script: Seq<char>) -> bool {
    let accesses = context_accesses(script, "github"@);
    exists|i: int|
        0 <= i < accesses.len() && (#[trigger] accesses[i] is None || is_untrusted_property(accesses[i]->0))
}

fn eq_ignore_case_str(p: &Vec<char>, name: &str) -> (r: bool)
    ensures
        r == eq_ignore_ascii_case(p@, name@),
{
    let n = chars_of(name);
    eq_ignore_ascii_case_exec(p.as_slice(), n.as_slice())
}

/// Whether a script's expressions read attacker-controlled `github` context.
pub fn has_untrusted_context_exec(script: &[char]) -> (r: bool)
    ensures
        r == has_untrusted_context(script@),
{
    let github = chars_of("github");
    let accesses = context_accesses_exec(script, github.as_slice());
    let ghost av = access_views(accesses@);
    let mut i: usize = 0;
    while i < accesses.len()
        invariant
            av == access_views(accesses@),
            av == context_accesses(script@, "github"@),
            i <= accesses@.len(),
            forall|j: int| 0 <= j < i ==> !(#[trigger] av[j] is None || is_untrusted_property(av[j]->0)),
        decreases accesses@.len() - i,
    {
        assert(av[i as int] == match accesses@[i as int] { Some(p) => Some(p@), None => None::<Seq<char>> });
        match &accesses[i] {
            None => {
                return true;
            },
            Some(p) => {
                if eq_ignore_case_str(p, "event") || eq_ignore_case_str(p, "head_ref")
                    || eq_ignore_case_str(p, "base_ref") || eq_ignore_case_str(p, "actor")
                    || eq_ignore_case_str(p, "triggering_actor") {
                    return true;
                }
            },
        }
        i = i + 1;
    }
    false
}

/// The symbolic secret names that the expressions of `text` read.
pub open spec fn secret_names(text: Seq<char>) -> Set<Seq<char>> {
    let accesses = context_accesses(text, "secrets"@);
    Set::new(|name: Seq<char>| accesses.contains(Some(name)) && is_secret_name(name))
}

/// Whether the expressions of `text` read secrets by something other than
/// a symbolic name.
pub open spec fn has_non_symbolic_secret_text(text: Seq<char>) -> bool {
    let accesses = context_accesses(text, "secrets"@);
    exists|i: int|
        0 <= i < accesses.len() && (#[trigger] accesses[i] is None || !is_secret_name(accesses[i]->0))
}

/// Whether a text holds the start of an expression ("${{").
pub open spec fn is_dynamic(value: Seq<char>) -> bool {
    find(value, expression_open()) >= 0
}

/// Whether a text holds the start of an expression.
pub fn is_dynamic_exec(value: &[char]) -> (r: bool)
    ensures
        r == is_dynamic(value@),
{
    let open = vec!['$', '{', '{'];
    assert(open@ =~= expression_open());
    assert(value@.skip(0) =~= value@);
    find_from(value, 0, open.as_slice()).is_some()
}

/// A run script counts as reading untrusted input exactly when one of its
/// expressions reads the whole `github` context, a dynamic property of it,
/// or one of `github.event`, `github.head_ref`, `github.base_ref`,
/// `github.actor` and `github.triggering_actor` (in any ASCII case).
pub proof fn lemma_untrusted_github_properties(script: Seq<char>)
    ensures
        has_untrusted_context(script) <==> exists|i: int|
            0 <= i < context_accesses(script, "github"@).len() && match #[trigger] context_accesses(
                script,
                "github"@,
            )[i] {
                None => true,
                Some(p) => eq_ignore_ascii_case(p, "event"@) || eq_ignore_ascii_case(p, "head_ref"@)
                    || eq_ignore_ascii_case(p, "base_ref"@) || eq_ignore_ascii_case(p, "actor"@)
                    || eq_ignore_ascii_case(p, "triggering_actor"@),
            },
{
    let a = context_accesses(script, "github"@);
    if has_untrusted_context(script) {
        let i = choose|i: int| 0 <= i < a.len() && (#[trigger] a[i] is None || is_untrusted_property(a[i]->0));
        assert(0 <= i < a.len() && match a[i] {
            None => true,
            Some(p) => eq_ignore_ascii_case(p, "event"@) || eq_ignore_ascii_case(p, "head_ref"@)
                || eq_ignore_ascii_case(p, "base_ref"@) || eq_ignore_ascii_case(p, "actor"@)
                || eq_ignore_ascii_case(p, "triggering_actor"@),
        });
    }
    if exists|i: int|
        0 <= i < a.len() && match #[trigger] a[i] {
            None => true,
            Some(p) => eq_ignore_ascii_case(p, "event"@) || eq_ignore_ascii_case(p, "head_ref"@)
                || eq_ignore_ascii_case(p, "base_ref"@) || eq_ignore_ascii_case(p, "actor"@)
                || eq_ignore_ascii_case(p, "triggering_actor"@),
        } {
        let i = choose|i: int|
            0 <= i < a.len() && match #[trigger] a[i] {
                None => true,
                Some(p) => eq_ignore_ascii_case(p, "event"@) || eq_ignore_ascii_case(p, "head_ref"@)
                    || eq_ignore_ascii_case(p, "base_ref"@) || eq_ignore_ascii_case(p, "actor"@)
                    || eq_ignore_ascii_case(p, "triggering_actor"@),
            };
        assert(a[i] is None || is_untrusted_property(a[i]->0));
    }
}

} // verus!
