use vstd::prelude::*;

use crate::text::{
    chars_of, lemma_seq_lt_irreflexive, lemma_seq_lt_total, lemma_seq_lt_transitive,
    char_seq_lt, seq_lt,
};

verus! {

/// One component of a Unix path, as `std::path::Component` distinguishes them.
pub enum PathPart {
    RootDir,
    CurDir,
    ParentDir,
    Normal(Seq<char>),
}

/// The text of `p` split at every '/'; an empty text is one empty segment.
pub open spec fn split_on_slash(p: Seq<char>) -> Seq<Seq<char>>
    decreases p.len(),
{
    if p.len() == 0 {
        seq![Seq::<char>::empty()]
    } else {
        let rest = split_on_slash(p.drop_last());
        if p.last() == '/' {
            rest.push(Seq::<char>::empty())
        } else {
            rest.update(rest.len() - 1, rest.last().push(p.last()))
        }
    }
}

/// The components that a sequence of segments contributes: empty and "."
/// segments are dropped, ".." is the parent directory.
pub open spec fn segment_parts(segs: Seq<Seq<char>>) -> Seq<PathPart>
    decreases segs.len(),
{
    if segs.len() == 0 {
        Seq::empty()
    } else {
        let rest = segment_parts(segs.drop_last());
        rest + segment_part(segs.last())
    }
}

pub open spec fn segment_part(s: Seq<char>) -> Seq<PathPart> {
    if s.len() == 0 || s == seq!['.'] {
        Seq::empty()
    } else if s == seq!['.', '.'] {
        seq![PathPart::ParentDir]
    } else {
        seq![PathPart::Normal(s)]
    }
}

/// The leading component of a path: the root, or "." at the very start.
pub open spec fn leading_part(p: Seq<char>) -> Seq<PathPart> {
    if p.len() > 0 && p[0] == '/' {
        seq![PathPart::RootDir]
    } else if p.len() > 0 && p[0] == '.' && (p.len() == 1 || p[1] == '/') {
        seq![PathPart::CurDir]
    } else {
        Seq::empty()
    }
}

/// The components of a path, as `Path::components` yields them on Unix.
pub open spec fn path_parts(p: Seq<char>) -> Seq<PathPart> {
    leading_part(p) + segment_parts(split_on_slash(p))
}

pub open spec fn part_rank(a: PathPart) -> int {
    match a {
        PathPart::RootDir => 1,
        PathPart::CurDir => 2,
        PathPart::ParentDir => 3,
        PathPart::Normal(_) => 4,
    }
}

/// The order of `Component`: by kind, then a normal component by its text.
pub open spec fn part_lt(a: PathPart, b: PathPart) -> bool {
    if part_rank(a) != part_rank(b) {
        part_rank(a) < part_rank(b)
    } else {
        match (a, b) {
            (PathPart::Normal(x), PathPart::Normal(y)) => seq_lt(x, y),
            _ => false,
        }
    }
}

/// Lexicographic order on component sequences.
pub open spec fn parts_lt(a: Seq<PathPart>, b: Seq<PathPart>) -> bool
    decreases a.len(),
{
    if b.len() == 0 {
        false
    } else if a.len() == 0 {
        true
    } else if a[0] != b[0] {
        part_lt(a[0], b[0])
    } else {
        parts_lt(a.drop_first(), b.drop_first())
    }
}

/// The order of `Path`: the lexicographic order of the components.
pub open spec fn path_lt(p: Seq<char>, q: Seq<char>) -> bool {
    parts_lt(path_parts(p), path_parts(q))
}

/// The equality of `Path`: equal components.
pub open spec fn path_eq(p: Seq<char>, q: Seq<char>) -> bool {
    path_parts(p) == path_parts(q)
}

pub proof fn lemma_part_lt_total(a: PathPart, b: PathPart)
    ensures
        part_lt(a, b) || part_lt(b, a) || a == b,
        !(part_lt(a, b) && part_lt(b, a)),
{
    match (a, b) {
        (PathPart::Normal(x), PathPart::Normal(y)) => {
            lemma_seq_lt_total(x, y);
            if seq_lt(x, y) && seq_lt(y, x) {
                lemma_seq_lt_transitive(x, y, x);
                lemma_seq_lt_irreflexive(x);
            }
        },
        _ => {},
    }
}

pub proof fn lemma_part_lt_transitive(a: PathPart, b: PathPart, c: PathPart)
    requires
        part_lt(a, b),
        part_lt(b, c),
    ensures
        part_lt(a, c),
{
    match (a, b, c) {
        (PathPart::Normal(x), PathPart::Normal(y), PathPart::Normal(z)) => {
            lemma_seq_lt_transitive(x, y, z);
        },
        _ => {},
    }
}

pub proof fn lemma_parts_lt_irreflexive(a: Seq<PathPart>)
    ensures
        !parts_lt(a, a),
    decreases a.len(),
{
    if a.len() > 0 {
        lemma_parts_lt_irreflexive(a.drop_first());
    }
}

pub proof fn lemma_parts_lt_transitive(a: Seq<PathPart>, b: Seq<PathPart>, c: Seq<PathPart>)
    requires
        parts_lt(a, b),
        parts_lt(b, c),
    ensures
        parts_lt(a, c),
    decreases a.len(),
{
    if a.len() > 0 && b.len() > 0 && c.len() > 0 {
        if a[0] == b[0] && b[0] == c[0] {
            lemma_parts_lt_transitive(a.drop_first(), b.drop_first(), c.drop_first());
        } else if a[0] == b[0] {
        } else if b[0] == c[0] {
        } else {
            lemma_part_lt_transitive(a[0], b[0], c[0]);
            if a[0] == c[0] {
                lemma_part_lt_total(a[0], b[0]);
            }
        }
    }
}

pub proof fn lemma_parts_lt_total(a: Seq<PathPart>, b: Seq<PathPart>)
    ensures
        parts_lt(a, b) || parts_lt(b, a) || a == b,
    decreases a.len(),
{
    if a.len() > 0 && b.len() > 0 {
        if a[0] == b[0] {
            lemma_parts_lt_total(a.drop_first(), b.drop_first());
            if a.drop_first() == b.drop_first() {
                assert(a =~= seq![a[0]] + a.drop_first());
                assert(b =~= seq![b[0]] + b.drop_first());
            }
        } else {
            lemma_part_lt_total(a[0], b[0]);
        }
    } else if a.len() == 0 && b.len() == 0 {
        assert(a =~= b);
    }
}

pub proof fn lemma_parts_lt_asymmetric(a: Seq<PathPart>, b: Seq<PathPart>)
    requires
        parts_lt(a, b),
    ensures
        !parts_lt(b, a),
{
    if parts_lt(b, a) {
        lemma_parts_lt_transitive(a, b, a);
        lemma_parts_lt_irreflexive(a);
    }
}

/// An executable path component.
pub enum ExecPart {
    RootDir,
    CurDir,
    ParentDir,
    Normal(Vec<char>),
}

impl View for ExecPart {
    type V = PathPart;

    open spec fn view(&self) -> PathPart {
        match self {
            ExecPart::RootDir => PathPart::RootDir,
            ExecPart::CurDir => PathPart::CurDir,
            ExecPart::ParentDir => PathPart::ParentDir,
            ExecPart::Normal(v) => PathPart::Normal(v@),
        }
    }
}

pub open spec fn exec_parts_view(v: Seq<ExecPart>) -> Seq<PathPart> {
    v.map_values(|p: ExecPart| p@)
}

proof fn lemma_split_nonempty(p: Seq<char>)
    ensures
        split_on_slash(p).len() >= 1,
    decreases p.len(),
{
    if p.len() > 0 {
        lemma_split_nonempty(p.drop_last());
    }
}

/// The component that a finished segment contributes.
fn push_segment(parts: &mut Vec<ExecPart>, segment: Vec<char>)
    ensures
        exec_parts_view(final(parts)@) == exec_parts_view(old(parts)@) + segment_part(segment@),
{
    let ghost s = segment@;
    let ghost before = parts@;
    if segment.len() == 0 {
        assert(exec_parts_view(parts@) =~= exec_parts_view(before) + segment_part(s));
        return ;
    }
    if segment.len() == 1 && segment[0] == '.' {
        assert(s =~= seq!['.']);
        assert(exec_parts_view(parts@) =~= exec_parts_view(before) + segment_part(s));
        return ;
    }
    if segment.len() == 2 && segment[0] == '.' && segment[1] == '.' {
        assert(s =~= seq!['.', '.']);
        parts.push(ExecPart::ParentDir);
        assert(exec_parts_view(parts@) =~= exec_parts_view(before) + segment_part(s));
        return ;
    }
    assert(s != seq!['.']) by {
        if s == seq!['.'] {
            assert(s.len() == 1 && s[0] == '.');
        }
    }
    assert(s != seq!['.', '.']) by {
        if s == seq!['.', '.'] {
            assert(s.len() == 2 && s[0] == '.' && s[1] == '.');
        }
    }
    parts.push(ExecPart::Normal(segment));
    assert(exec_parts_view(parts@) =~= exec_parts_view(before) + segment_part(s));
}

/// The components of a path (`Path::components`).
pub fn path_components(p: &str) -> (parts: Vec<ExecPart>)
    ensures
        exec_parts_view(parts@) == path_parts(p@),
{
    let chars = chars_of(p);
    let ghost text = chars@;
    let mut parts: Vec<ExecPart> = Vec::new();
    if chars.len() > 0 && chars[0] == '/' {
        parts.push(ExecPart::RootDir);
    } else if chars.len() > 0 && chars[0] == '.' && (chars.len() == 1 || chars[1] == '/') {
        parts.push(ExecPart::CurDir);
    }
    assert(exec_parts_view(parts@) =~= leading_part(text));
    let mut segment: Vec<char> = Vec::new();
    let mut i: usize = 0;
    assert(text.take(0) =~= Seq::<char>::empty());
    assert(split_on_slash(text.take(0)) =~= seq![Seq::<char>::empty()]);
    assert(split_on_slash(text.take(0)).drop_last() =~= Seq::<Seq<char>>::empty());
    while i < chars.len()
        invariant
            chars@ == text,
            text == p@,
            i <= text.len(),
            split_on_slash(text.take(i as int)).len() >= 1,
            exec_parts_view(parts@) == leading_part(text) + segment_parts(
                split_on_slash(text.take(i as int)).drop_last(),
            ),
            segment@ == split_on_slash(text.take(i as int)).last(),
        decreases text.len() - i,
    {
        let ghost prefix = text.take(i as int);
        let ghost next = text.take(i + 1);
        assert(next.drop_last() =~= prefix);
        assert(next.last() == text[i as int]);
        proof {
            lemma_split_nonempty(prefix);
        }
        if chars[i] == '/' {
            let mut finished: Vec<char> = Vec::new();
            std::mem::swap(&mut finished, &mut segment);
            push_segment(&mut parts, finished);
            proof {
                let segs = split_on_slash(prefix);
                assert(split_on_slash(next) == segs.push(Seq::<char>::empty()));
                assert(split_on_slash(next).drop_last() =~= segs);
                assert(segs =~= segs.drop_last().push(segs.last()));
                assert(segment_parts(segs) == segment_parts(segs.drop_last()) + segment_part(
                    segs.last(),
                ));
                assert(exec_parts_view(parts@) =~= leading_part(text) + segment_parts(segs));
            }
        } else {
            segment.push(chars[i]);
            proof {
                let segs = split_on_slash(prefix);
                assert(split_on_slash(next) == segs.update(
                    segs.len() - 1,
                    segs.last().push(text[i as int]),
                ));
                assert(split_on_slash(next).drop_last() =~= segs.drop_last());
            }
        }
        i = i + 1;
    }
    assert(text.take(text.len() as int) =~= text);
    let ghost segs = split_on_slash(text);
    push_segment(&mut parts, segment);
    proof {
        assert(segs =~= segs.drop_last().push(segs.last()));
        assert(segment_parts(segs) == segment_parts(segs.drop_last()) + segment_part(segs.last()));
        assert(exec_parts_view(parts@) =~= leading_part(text) + segment_parts(segs));
    }
    parts
}

fn exec_part_rank(a: &ExecPart) -> (r: u8)
    ensures
        r == part_rank(a@),
{
    match a {
        ExecPart::RootDir => 1,
        ExecPart::CurDir => 2,
        ExecPart::ParentDir => 3,
        ExecPart::Normal(_) => 4,
    }
}

fn exec_part_lt(a: &ExecPart, b: &ExecPart) -> (r: bool)
    ensures
        r == part_lt(a@, b@),
{
    let ra = exec_part_rank(a);
    let rb = exec_part_rank(b);
    if ra != rb {
        return ra < rb;
    }
    match (a, b) {
        (ExecPart::Normal(x), ExecPart::Normal(y)) => char_seq_lt(x.as_slice(), y.as_slice()),
        _ => false,
    }
}

fn exec_part_eq(a: &ExecPart, b: &ExecPart) -> (r: bool)
    ensures
        r == (a@ == b@),
{
    proof {
        lemma_part_lt_total(a@, b@);
    }
    !exec_part_lt(a, b) && !exec_part_lt(b, a)
}

/// Whether the components `a` sort strictly before the components `b`.
pub fn parts_lt_exec(a: &Vec<ExecPart>, b: &Vec<ExecPart>) -> (r: bool)
    ensures
        r == parts_lt(exec_parts_view(a@), exec_parts_view(b@)),
{
    let ghost x = exec_parts_view(a@);
    let ghost y = exec_parts_view(b@);
    let mut i: usize = 0;
    assert(x.skip(0) =~= x && y.skip(0) =~= y);
    while i < a.len() && i < b.len()
        invariant
            x == exec_parts_view(a@),
            y == exec_parts_view(b@),
            i <= a@.len(),
            i <= b@.len(),
            parts_lt(x, y) == parts_lt(x.skip(i as int), y.skip(i as int)),
        decreases a@.len() - i,
    {
        assert(x.skip(i as int)[0] == a@[i as int]@);
        assert(y.skip(i as int)[0] == b@[i as int]@);
        if !exec_part_eq(&a[i], &b[i]) {
            return exec_part_lt(&a[i], &b[i]);
        }
        assert(x.skip(i as int).drop_first() =~= x.skip(i + 1));
        assert(y.skip(i as int).drop_first() =~= y.skip(i + 1));
        i = i + 1;
    }
    i < b.len()
}

/// Whether path `a` sorts strictly before path `b` (`Path::cmp`).
pub fn path_lt_exec(a: &str, b: &str) -> (r: bool)
    ensures
        r == path_lt(a@, b@),
{
    let pa = path_components(a);
    let pb = path_components(b);
    parts_lt_exec(&pa, &pb)
}

/// Whether two paths are equal (`Path::eq`).
pub fn path_eq_exec(a: &str, b: &str) -> (r: bool)
    ensures
        r == path_eq(a@, b@),
{
    let pa = path_components(a);
    let pb = path_components(b);
    proof {
        lemma_parts_lt_total(path_parts(a@), path_parts(b@));
        if parts_lt(path_parts(a@), path_parts(b@)) {
            lemma_parts_lt_asymmetric(path_parts(a@), path_parts(b@));
        }
        if path_parts(a@) == path_parts(b@) {
            lemma_parts_lt_irreflexive(path_parts(a@));
        }
    }
    !parts_lt_exec(&pa, &pb) && !parts_lt_exec(&pb, &pa)
}

/// The component sequences of the keys of a sequence of map entries.
pub open spec fn part_keys<V>(s: Seq<(String, V)>) -> Seq<Seq<PathPart>> {
    s.map_values(|e: (String, V)| path_parts(e.0@))
}

pub open spec fn parts_strictly_sorted(s: Seq<Seq<PathPart>>) -> bool {
    forall|i: int, j: int| 0 <= i < j < s.len() ==> parts_lt(#[trigger] s[i], #[trigger] s[j])
}

pub proof fn lemma_parts_sorted_no_duplicates(s: Seq<Seq<PathPart>>)
    requires
        parts_strictly_sorted(s),
    ensures
        s.no_duplicates(),
{
    assert forall|i: int, j: int| 0 <= i < s.len() && 0 <= j < s.len() && i != j implies s[i]
        != s[j] by {
        if i < j {
            lemma_parts_lt_irreflexive(s[i]);
        } else {
            lemma_parts_lt_irreflexive(s[j]);
        }
    }
}

/// The map that a sequence of entries with distinct keys describes: each
/// key's components give the stored key text and the value.
pub open spec fn path_map_of<V: View>(s: Seq<(String, V)>) -> Map<Seq<PathPart>, (Seq<char>, V::V)> {
    Map::new(
        |k: Seq<PathPart>| part_keys(s).contains(k),
        |k: Seq<PathPart>| (s[part_keys(s).index_of(k)].0@, s[part_keys(s).index_of(k)].1@),
    )
}

pub proof fn lemma_path_map_at<V: View>(s: Seq<(String, V)>, i: int)
    requires
        part_keys(s).no_duplicates(),
        0 <= i < s.len(),
    ensures
        path_map_of(s).contains_key(path_parts(s[i].0@)),
        path_map_of(s)[path_parts(s[i].0@)] == (s[i].0@, s[i].1@),
{
    assert(part_keys(s)[i] == path_parts(s[i].0@));
    assert(part_keys(s).contains(part_keys(s)[i]));
}

/// Where key `x` belongs among the strictly sorted path keys of `s`.
fn path_entry_position<V>(s: &Vec<(String, V)>, x: &str) -> (r: (usize, bool))
    requires
        parts_strictly_sorted(part_keys(s@)),
    ensures
        r.0 <= s@.len(),
        forall|i: int| 0 <= i < r.0 ==> parts_lt(#[trigger] path_parts(s@[i].0@), path_parts(x@)),
        r.1 ==> r.0 < s@.len() && path_parts(s@[r.0 as int].0@) == path_parts(x@),
        !r.1 ==> forall|j: int|
            r.0 <= j < s@.len() ==> parts_lt(path_parts(x@), #[trigger] path_parts(s@[j].0@)),
{
    let mut i: usize = 0;
    while i < s.len()
        invariant
            i <= s@.len(),
            parts_strictly_sorted(part_keys(s@)),
            forall|k: int| 0 <= k < i ==> parts_lt(#[trigger] path_parts(s@[k].0@), path_parts(x@)),
        decreases s@.len() - i,
    {
        if !path_lt_exec(s[i].0.as_str(), x) {
            let same = path_eq_exec(s[i].0.as_str(), x);
            if !same {
                proof {
                    lemma_parts_lt_total(path_parts(s@[i as int].0@), path_parts(x@));
                    assert forall|j: int| i <= j < s@.len() implies parts_lt(
                        path_parts(x@),
                        #[trigger] path_parts(s@[j].0@),
                    ) by {
                        if j > i {
                            assert(part_keys(s@)[i as int] == path_parts(s@[i as int].0@));
                            assert(part_keys(s@)[j] == path_parts(s@[j].0@));
                            lemma_parts_lt_transitive(
                                path_parts(x@),
                                path_parts(s@[i as int].0@),
                                path_parts(s@[j].0@),
                            );
                        }
                    }
                }
            }
            return (i, same);
        }
        i = i + 1;
    }
    (i, false)
}

/// A map keyed by paths in ascending path order, as `BTreeMap<PathBuf, _>`
/// keeps it. Keys with the same components are the same key.
#[derive(Debug)]
pub struct PathMap<V> {
    entries: Vec<(String, V)>,
}

impl<V> PathMap<V> {
    #[verifier::type_invariant]
    spec fn sorted(self) -> bool {
        parts_strictly_sorted(part_keys(self.entries@))
    }
}

impl<V: View> View for PathMap<V> {
    type V = Map<Seq<PathPart>, (Seq<char>, V::V)>;

    closed spec fn view(&self) -> Map<Seq<PathPart>, (Seq<char>, V::V)> {
        path_map_of(self.entries@)
    }
}

impl<V: View> PathMap<V> {
    pub fn new() -> (m: Self)
        ensures
            m@ == Map::<Seq<PathPart>, (Seq<char>, V::V)>::empty(),
    {
        let m = PathMap { entries: Vec::new() };
        assert(path_map_of(m.entries@) =~= Map::<Seq<PathPart>, (Seq<char>, V::V)>::empty());
        m
    }

    /// Adds the value for `key`; where a key with the same components is
    /// present, its value is replaced and its text kept (`BTreeMap::insert`).
    pub fn insert(&mut self, key: String, value: V)
        ensures
            final(self)@ == old(self)@.insert(
                path_parts(key@),
                (
                    if old(self)@.contains_key(path_parts(key@)) {
                        old(self)@[path_parts(key@)].0
                    } else {
                        key@
                    },
                    value@,
                ),
            ),
    {
        proof {
            use_type_invariant(&*self);
            lemma_parts_sorted_no_duplicates(part_keys(self.entries@));
        }
        let ghost old_entries = self.entries@;
        let ghost kp = path_parts(key@);
        let ghost kv = key@;
        let ghost vv = value@;
        let (p, present) = path_entry_position(&self.entries, key.as_str());
        let mut entries: Vec<(String, V)> = Vec::new();
        std::mem::swap(&mut entries, &mut self.entries);
        if present {
            let ghost stored = old_entries[p as int].0@;
            let (old_key, _old_value) = entries.remove(p);
            entries.insert(p, (old_key, value));
            proof {
                let o = part_keys(old_entries);
                let n = part_keys(entries@);
                assert(n =~= o);
                lemma_path_map_at(old_entries, p as int);
                assert(path_map_of(entries@) =~= path_map_of(old_entries).insert(kp, (stored, vv))) by {
                    assert forall|k: Seq<PathPart>| #[trigger] n.contains(k) implies path_map_of(
                        entries@,
                    )[k] == path_map_of(old_entries).insert(kp, (stored, vv))[k] by {
                        let j = choose|j: int| 0 <= j < n.len() && n[j] == k;
                        lemma_path_map_at(entries@, j);
                        if j != p {
                            assert(entries@[j] == old_entries[j]);
                            lemma_path_map_at(old_entries, j);
                            assert(o[j] != o[p as int]);
                        } else {
                            assert(entries@[j].0@ == stored);
                        }
                    }
                    assert(o[p as int] == kp);
                }
            }
        } else {
            entries.insert(p, (key, value));
            proof {
                let o = part_keys(old_entries);
                let n = part_keys(entries@);
                assert(n =~= o.take(p as int).push(kp) + o.skip(p as int));
                assert forall|i: int, j: int| 0 <= i < j < n.len() implies parts_lt(
                    #[trigger] n[i],
                    #[trigger] n[j],
                ) by {
                    if j < p {
                    } else if j == p {
                        assert(n[i] == o[i]);
                        assert(n[i] == path_parts(old_entries[i].0@));
                    } else if i == p {
                        assert(n[j] == o[j - 1]);
                        assert(n[j] == path_parts(old_entries[j - 1].0@));
                    } else if i < p {
                        assert(n[i] == path_parts(old_entries[i].0@));
                        assert(n[j] == path_parts(old_entries[j - 1].0@));
                        lemma_parts_lt_transitive(o[i], kp, o[j - 1]);
                    } else {
                        assert(n[i] == o[i - 1]);
                        assert(n[j] == o[j - 1]);
                    }
                }
                lemma_parts_sorted_no_duplicates(n);
                assert(!o.contains(kp)) by {
                    if o.contains(kp) {
                        let q = choose|q: int| 0 <= q < o.len() && o[q] == kp;
                        assert(o[q] == path_parts(old_entries[q].0@));
                        lemma_parts_lt_irreflexive(kp);
                    }
                }
                assert(path_map_of(entries@) =~= path_map_of(old_entries).insert(kp, (kv, vv))) by {
                    assert forall|k: Seq<PathPart>| n.contains(k) <==> (o.contains(k) || k == kp) by {
                        if n.contains(k) {
                            let m = choose|m: int| 0 <= m < n.len() && n[m] == k;
                            if m < p {
                                assert(o[m] == k);
                            } else if m > p {
                                assert(o[m - 1] == k);
                            }
                        }
                        if o.contains(k) {
                            let m = choose|m: int| 0 <= m < o.len() && o[m] == k;
                            if m < p {
                                assert(n[m] == k);
                            } else {
                                assert(n[m + 1] == k);
                            }
                        }
                        if k == kp {
                            assert(n[p as int] == kp);
                        }
                    }
                    assert forall|k: Seq<PathPart>| #[trigger] n.contains(k) implies path_map_of(
                        entries@,
                    )[k] == path_map_of(old_entries).insert(kp, (kv, vv))[k] by {
                        let m = choose|m: int| 0 <= m < n.len() && n[m] == k;
                        lemma_path_map_at(entries@, m);
                        if m < p {
                            lemma_path_map_at(old_entries, m);
                            assert(old_entries[m] == entries@[m]);
                            assert(o[m] == k);
                        } else if m > p {
                            lemma_path_map_at(old_entries, m - 1);
                            assert(old_entries[m - 1] == entries@[m]);
                            assert(n[m] == o[m - 1]);
                        } else {
                            assert(entries@[m].0@ == kv);
                            assert(entries@[m].1@ == vv);
                        }
                    }
                }
            }
        }
        self.entries = entries;
    }

    /// The stored key text and value for a key with the components of `key`.
    pub fn get(&self, key: &str) -> (r: Option<&V>)
        ensures
            match r {
                Some(v) => self@.contains_key(path_parts(key@)) && v@ == self@[path_parts(
                    key@,
                )].1,
                None => !self@.contains_key(path_parts(key@)),
            },
    {
        proof {
            use_type_invariant(self);
            lemma_parts_sorted_no_duplicates(part_keys(self.entries@));
        }
        let (p, present) = path_entry_position(&self.entries, key);
        if present {
            proof {
                lemma_path_map_at(self.entries@, p as int);
            }
            Some(&self.entries[p].1)
        } else {
            proof {
                assert forall|j: int| 0 <= j < self.entries@.len() implies part_keys(
                    self.entries@,
                )[j] != path_parts(key@) by {
                    assert(part_keys(self.entries@)[j] == path_parts(self.entries@[j].0@));
                    lemma_parts_lt_irreflexive(path_parts(key@));
                }
            }
            None
        }
    }

    pub fn len(&self) -> (n: usize)
        ensures
            n == self@.len(),
    {
        proof {
            use_type_invariant(self);
            lemma_parts_sorted_no_duplicates(part_keys(self.entries@));
            part_keys(self.entries@).unique_seq_to_set();
            assert(self@.dom() =~= part_keys(self.entries@).to_set());
        }
        self.entries.len()
    }

    pub fn is_empty(&self) -> (r: bool)
        ensures
            r == (self@.len() == 0),
    {
        self.len() == 0
    }

    /// The entries in ascending path order.
    pub fn as_slice(&self) -> (r: &[(String, V)])
        ensures
            parts_strictly_sorted(part_keys(r@)),
            part_keys(r@).no_duplicates(),
            path_map_of(r@) == self@,
            forall|i: int|
                0 <= i < r@.len() ==> self@.contains_key(#[trigger] path_parts(r@[i].0@))
                    && self@[path_parts(r@[i].0@)] == (r@[i].0@, r@[i].1@),
            forall|k: Seq<PathPart>| #[trigger] self@.contains_key(k) ==> part_keys(r@).contains(k),
    {
        proof {
            use_type_invariant(self);
            lemma_parts_sorted_no_duplicates(part_keys(self.entries@));
            assert forall|i: int| 0 <= i < self.entries@.len() implies self@.contains_key(
                #[trigger] path_parts(self.entries@[i].0@),
            ) && self@[path_parts(self.entries@[i].0@)] == (
                self.entries@[i].0@,
                self.entries@[i].1@,
            ) by {
                lemma_path_map_at(self.entries@, i);
            }
        }
        self.entries.as_slice()
    }
}

} // verus!
