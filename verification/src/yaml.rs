use vstd::prelude::*;

use crate::text::{str_eq};

verus! {

/// A YAML number as `serde_yaml::Number` holds it: a non-negative integer,
/// a negative integer, or a float given by its IEEE 754 bits.
#[derive(Debug, Clone, Copy, PartialEq, Eq, Structural)]
pub enum YamlNumber {
    PosInt(u64),
    NegInt(i64),
    FloatBits(u64),
}

/// A parsed YAML value, with what `serde_yaml::Value` holds: mapping
/// entries in document order, and tags as `Tag`'s `Display` shows them.
#[derive(Debug)]
pub enum Yaml {
    Null,
    Bool(bool),
    Number(YamlNumber),
    Str(String),
    Sequence(Vec<Yaml>),
    Mapping(Vec<(Yaml, Yaml)>),
    Tagged(String, Box<Yaml>),
}

/// Why a YAML text could not be parsed: the line and column that the
/// parser reports, when it reports one.
#[derive(Debug, Clone, Copy, PartialEq, Eq)]
pub struct YamlError {
    pub location: Option<(usize, usize)>,
}

/// serde_yaml's parsed value, only carried into the conversion below.
#[verifier::external_type_specification]
#[verifier::external_body]
pub struct ExSerdeYamlValue(serde_yaml::Value);

/// serde_yaml's number, only carried into the conversion below.
#[verifier::external_type_specification]
#[verifier::external_body]
pub struct ExSerdeYamlNumber(serde_yaml::Number);

/// What `serde_yaml::from_str::<serde_yaml::Value>` parses from a text, in
/// this library's representation, or where it failed.
pub uninterp spec fn parsed_yaml(source: Seq<char>) -> Result<Yaml, YamlError>;

/// Parses a YAML document (`serde_yaml::from_str::<serde_yaml::Value>`) and
/// converts the value one variant for one. The contract claims only that
/// the result is a function of the text: what the parser makes of it is
/// named, not restated. Duplicate mapping keys are a parse error there.
#[verifier::external_body]
pub fn parse_yaml(source: &str) -> (r: Result<Yaml, YamlError>)
    ensures
        r == parsed_yaml(source@),
{
    match serde_yaml::from_str::<serde_yaml::Value>(source) {
        Ok(value) => Ok(yaml_of(&value)),
        Err(error) => Err(YamlError { location: error.location().map(|l| (l.line(), l.column())) }),
    }
}

/// The same value in this library's representation, one variant for one;
/// tags as `Tag`'s `Display` shows them.
#[verifier::external_body]
fn yaml_of(value: &serde_yaml::Value) -> Yaml {
    match value {
        serde_yaml::Value::Null => Yaml::Null,
        serde_yaml::Value::Bool(b) => Yaml::Bool(*b),
        serde_yaml::Value::Number(n) => Yaml::Number(number_of(n)),
        serde_yaml::Value::String(s) => Yaml::Str(s.clone()),
        serde_yaml::Value::Sequence(v) => Yaml::Sequence(v.iter().map(yaml_of).collect()),
        serde_yaml::Value::Mapping(m) => Yaml::Mapping(m.iter().map(|(k, v)| (yaml_of(k), yaml_of(v))).collect()),
        serde_yaml::Value::Tagged(t) => Yaml::Tagged(t.tag.to_string(), Box::new(yaml_of(&t.value))),
    }
}

/// The same number, one variant for one; a float by its IEEE 754 bits.
#[verifier::external_body]
fn number_of(n: &serde_yaml::Number) -> YamlNumber {
    match (n.as_u64(), n.as_i64()) {
        (Some(u), _) => YamlNumber::PosInt(u),
        (None, Some(i)) => YamlNumber::NegInt(i),
        (None, None) => YamlNumber::FloatBits(n.as_f64().map_or(0, |x| x.to_bits())),
    }
}

// ---------------------------------------------------------------------
// Accessors, as serde_yaml's `Value` methods behave
// ---------------------------------------------------------------------

/// The value with its tags removed (`Value::untag_ref`).
pub open spec fn untag(y: Yaml) -> Yaml
    decreases y,
{
    match y {
        Yaml::Tagged(_, inner) => untag(*inner),
        _ => y,
    }
}

/// `Value::as_str`.
pub open spec fn as_str(y: Yaml) -> Option<Seq<char>> {
    match untag(y) {
        Yaml::Str(s) => Some(s@),
        _ => None,
    }
}

/// `Value::as_sequence`.
pub open spec fn as_sequence(y: Yaml) -> Option<Seq<Yaml>> {
    match untag(y) {
        Yaml::Sequence(items) => Some(items@),
        _ => None,
    }
}

/// `Value::as_mapping`.
pub open spec fn as_mapping(y: Yaml) -> Option<Seq<(Yaml, Yaml)>> {
    match untag(y) {
        Yaml::Mapping(entries) => Some(entries@),
        _ => None,
    }
}

/// The value with its tags removed.
pub fn untag_exec(y: &Yaml) -> (r: &Yaml)
    ensures
        *r == untag(*y),
    decreases y,
{
    match y {
        Yaml::Tagged(_, inner) => untag_exec(inner),
        _ => y,
    }
}

/// The string that a value holds, tags aside.
pub fn as_str_exec(y: &Yaml) -> (r: Option<&String>)
    ensures
        match r {
            Some(s) => as_str(*y) == Some(s@),
            None => as_str(*y) is None,
        },
{
    match untag_exec(y) {
        Yaml::Str(s) => Some(s),
        _ => None,
    }
}

/// The items of a sequence value, tags aside.
pub fn as_sequence_exec(y: &Yaml) -> (r: Option<&Vec<Yaml>>)
    ensures
        match r {
            Some(v) => as_sequence(*y) == Some(v@),
            None => as_sequence(*y) is None,
        },
{
    match untag_exec(y) {
        Yaml::Sequence(items) => Some(items),
        _ => None,
    }
}

/// The entries of a mapping value, tags aside.
pub fn as_mapping_exec(y: &Yaml) -> (r: Option<&Vec<(Yaml, Yaml)>>)
    ensures
        match r {
            Some(m) => as_mapping(*y) == Some(m@),
            None => as_mapping(*y) is None,
        },
{
    match untag_exec(y) {
        Yaml::Mapping(entries) => Some(entries),
        _ => None,
    }
}

/// The value stored under the plain string key `key`
/// (`Mapping::get(Value::String(key))`).
pub open spec fn value_at(m: Seq<(Yaml, Yaml)>, key: Seq<char>) -> Option<Yaml>
    decreases m.len(),
{
    if m.len() == 0 {
        None
    } else if m[0].0 matches Yaml::Str(k) && k@ == key {
        Some(m[0].1)
    } else {
        value_at(m.drop_first(), key)
    }
}

/// The value stored under a plain string key.
pub fn value_at_exec<'a>(m: &'a Vec<(Yaml, Yaml)>, key: &str) -> (r: Option<&'a Yaml>)
    ensures
        match r {
            Some(v) => value_at(m@, key@) == Some(*v),
            None => value_at(m@, key@) is None,
        },
{
    let mut i: usize = 0;
    assert(m@.skip(0) =~= m@);
    while i < m.len()
        invariant
            i <= m@.len(),
            value_at(m@, key@) == value_at(m@.skip(i as int), key@),
        decreases m@.len() - i,
    {
        assert(m@.skip(i as int)[0] == m@[i as int]);
        assert(m@.skip(i as int).drop_first() =~= m@.skip(i + 1));
        match &m[i].0 {
            Yaml::Str(k) => {
                if str_eq(k.as_str(), key) {
                    return Some(&m[i].1);
                }
            },
            _ => {},
        }
        i = i + 1;
    }
    None
}

// ---------------------------------------------------------------------
// Equality of values, as `Value`'s `PartialEq` decides it
// ---------------------------------------------------------------------

pub open spec fn is_nan_bits(b: u64) -> bool {
    (b & 0x7ff0_0000_0000_0000u64) == 0x7ff0_0000_0000_0000u64 && (b & 0x000f_ffff_ffff_ffffu64)
        != 0
}

pub open spec fn is_zero_bits(b: u64) -> bool {
    (b & 0x7fff_ffff_ffff_ffffu64) == 0
}

/// `Number`'s equality: integers by value; floats by IEEE equality, except
/// that every NaN equals every NaN.
pub open spec fn number_eq(a: YamlNumber, b: YamlNumber) -> bool {
    match (a, b) {
        (YamlNumber::PosInt(x), YamlNumber::PosInt(y)) => x == y,
        (YamlNumber::NegInt(x), YamlNumber::NegInt(y)) => x == y,
        (YamlNumber::FloatBits(x), YamlNumber::FloatBits(y)) => (is_nan_bits(x) && is_nan_bits(y))
            || (!is_nan_bits(x) && !is_nan_bits(y) && (x == y || (is_zero_bits(x) && is_zero_bits(
            y,
        )))),
        _ => false,
    }
}

/// A tag without one leading '!' (`nobang`), unless that leaves nothing.
pub open spec fn nobang(t: Seq<char>) -> Seq<char> {
    if t.len() > 1 && t[0] == '!' {
        t.skip(1)
    } else {
        t
    }
}

/// `Value`'s equality: structural, with mappings equal when they have the
/// same number of entries and every entry of one has an entry of the other
/// with an equal key and an equal value.
pub open spec fn yaml_eq(a: Yaml, b: Yaml) -> bool
    decreases a, 0int,
{
    match (a, b) {
        (Yaml::Null, Yaml::Null) => true,
        (Yaml::Bool(x), Yaml::Bool(y)) => x == y,
        (Yaml::Number(x), Yaml::Number(y)) => number_eq(x, y),
        (Yaml::Str(x), Yaml::Str(y)) => x@ == y@,
        (Yaml::Sequence(xs), Yaml::Sequence(ys)) => xs@.len() == ys@.len() && items_eq(
            xs@,
            ys@,
            0,
        ),
        (Yaml::Mapping(xs), Yaml::Mapping(ys)) => xs@.len() == ys@.len() && entries_matched(
            xs@,
            ys@,
            0,
        ),
        (Yaml::Tagged(t, x), Yaml::Tagged(u, y)) => nobang(t@) == nobang(u@) && yaml_eq(*x, *y),
        _ => false,
    }
}

/// Items `i..` of two sequences are pairwise equal.
pub open spec fn items_eq(xs: Seq<Yaml>, ys: Seq<Yaml>, i: int) -> bool
    decreases xs, xs.len() - i,
{
    if i < 0 || i >= xs.len() || i >= ys.len() {
        true
    } else {
        yaml_eq(xs[i], ys[i]) && items_eq(xs, ys, i + 1)
    }
}

/// Every entry `i..` of `xs` has an entry of `ys` with an equal key and an
/// equal value.
pub open spec fn entries_matched(xs: Seq<(Yaml, Yaml)>, ys: Seq<(Yaml, Yaml)>, i: int) -> bool
    decreases xs, xs.len() - i,
{
    if i < 0 || i >= xs.len() {
        true
    } else {
        entry_matched(xs[i], ys, 0) && entries_matched(xs, ys, i + 1)
    }
}

/// Some entry `j..` of `ys` has a key equal to `e`'s and a value equal to `e`'s.
pub open spec fn entry_matched(e: (Yaml, Yaml), ys: Seq<(Yaml, Yaml)>, j: int) -> bool
    decreases e, ys.len() - j,
{
    if j < 0 || j >= ys.len() {
        false
    } else {
        (yaml_eq(e.0, ys[j].0) && yaml_eq(e.1, ys[j].1)) || entry_matched(e, ys, j + 1)
    }
}

fn is_nan_bits_exec(b: u64) -> (r: bool)
    ensures
        r == is_nan_bits(b),
{
    (b & 0x7ff0_0000_0000_0000u64) == 0x7ff0_0000_0000_0000u64 && (b & 0x000f_ffff_ffff_ffffu64) != 0
}

fn number_eq_exec(a: YamlNumber, b: YamlNumber) -> (r: bool)
    ensures
        r == number_eq(a, b),
{
    match (a, b) {
        (YamlNumber::PosInt(x), YamlNumber::PosInt(y)) => x == y,
        (YamlNumber::NegInt(x), YamlNumber::NegInt(y)) => x == y,
        (YamlNumber::FloatBits(x), YamlNumber::FloatBits(y)) => {
            let nx = is_nan_bits_exec(x);
            let ny = is_nan_bits_exec(y);
            (nx && ny) || (!nx && !ny && (x == y || ((x & 0x7fff_ffff_ffff_ffffu64) == 0 && (y
                & 0x7fff_ffff_ffff_ffffu64) == 0)))
        },
        _ => false,
    }
}

fn nobang_exec(t: &String) -> (r: Vec<char>)
    ensures
        r@ == nobang(t@),
{
    let chars = crate::text::chars_of(t.as_str());
    if chars.len() > 1 && chars[0] == '!' {
        let r = crate::expr::sub_chars(chars.as_slice(), 1, chars.len());
        assert(r@ =~= chars@.skip(1));
        r
    } else {
        chars
    }
}

fn char_vec_eq(a: &Vec<char>, b: &Vec<char>) -> (r: bool)
    ensures
        r == (a@ == b@),
{
    if a.len() != b.len() {
        return false;
    }
    let mut i: usize = 0;
    while i < a.len()
        invariant
            a@.len() == b@.len(),
            i <= a@.len(),
            forall|j: int| 0 <= j < i ==> a@[j] == b@[j],
        decreases a@.len() - i,
    {
        if a[i] != b[i] {
            return false;
        }
        i = i + 1;
    }
    assert(a@ =~= b@);
    true
}

/// Whether two values are equal as serde_yaml's `Value` compares them.
pub fn yaml_eq_exec(a: &Yaml, b: &Yaml) -> (r: bool)
    ensures
        r == yaml_eq(*a, *b),
    decreases a, 0int,
{
    match (a, b) {
        (Yaml::Null, Yaml::Null) => true,
        (Yaml::Bool(x), Yaml::Bool(y)) => *x == *y,
        (Yaml::Number(x), Yaml::Number(y)) => number_eq_exec(*x, *y),
        (Yaml::Str(x), Yaml::Str(y)) => str_eq(x.as_str(), y.as_str()),
        (Yaml::Sequence(xs), Yaml::Sequence(ys)) => xs.len() == ys.len() && items_eq_exec(xs, ys, 0),
        (Yaml::Mapping(xs), Yaml::Mapping(ys)) => xs.len() == ys.len() && entries_matched_exec(
            xs,
            ys,
            0,
        ),
        (Yaml::Tagged(t, x), Yaml::Tagged(u, y)) => {
            let nt = nobang_exec(t);
            let nu = nobang_exec(u);
            char_vec_eq(&nt, &nu) && yaml_eq_exec(x, y)
        },
        _ => false,
    }
}

fn items_eq_exec(xs: &Vec<Yaml>, ys: &Vec<Yaml>, i: usize) -> (r: bool)
    requires
        i <= xs@.len(),
    ensures
        r == items_eq(xs@, ys@, i as int),
    decreases xs@, xs@.len() - i,
{
    if i >= xs.len() || i >= ys.len() {
        true
    } else {
        yaml_eq_exec(&xs[i], &ys[i]) && items_eq_exec(xs, ys, i + 1)
    }
}

fn entries_matched_exec(xs: &Vec<(Yaml, Yaml)>, ys: &Vec<(Yaml, Yaml)>, i: usize) -> (r: bool)
    requires
        i <= xs@.len(),
    ensures
        r == entries_matched(xs@, ys@, i as int),
    decreases xs@, xs@.len() - i,
{
    if i >= xs.len() {
        true
    } else {
        entry_matched_exec(&xs[i], ys, 0) && entries_matched_exec(xs, ys, i + 1)
    }
}

fn entry_matched_exec(e: &(Yaml, Yaml), ys: &Vec<(Yaml, Yaml)>, j: usize) -> (r: bool)
    requires
        j <= ys@.len(),
    ensures
        r == entry_matched(*e, ys@, j as int),
    decreases *e, ys@.len() - j,
{
    if j >= ys.len() {
        false
    } else {
        (yaml_eq_exec(&e.0, &ys[j].0) && yaml_eq_exec(&e.1, &ys[j].1)) || entry_matched_exec(
            e,
            ys,
            j + 1,
        )
    }
}

// ---------------------------------------------------------------------
// Mapping updates, as `Mapping` (an `IndexMap`) performs them
// ---------------------------------------------------------------------

/// The position of the entry whose key equals `key`, or -1.
pub open spec fn key_index(m: Seq<(Yaml, Yaml)>, key: Yaml) -> int
    decreases m.len(),
{
    if m.len() == 0 {
        -1
    } else if yaml_eq(key, m[0].0) {
        0
    } else {
        let r = key_index(m.drop_first(), key);
        if r < 0 {
            -1
        } else {
            r + 1
        }
    }
}

/// `Mapping::insert` of one entry: an equal key keeps its place and text
/// and takes the new value; another key is appended.
pub open spec fn mapping_insert(m: Seq<(Yaml, Yaml)>, e: (Yaml, Yaml)) -> Seq<(Yaml, Yaml)> {
    let i = key_index(m, e.0);
    if 0 <= i < m.len() {
        m.update(i, (m[i].0, e.1))
    } else {
        m.push(e)
    }
}

/// `Mapping::extend`: the entries of `other`, inserted in order.
pub open spec fn mapping_extend(m: Seq<(Yaml, Yaml)>, other: Seq<(Yaml, Yaml)>) -> Seq<(Yaml, Yaml)>
    decreases other.len(),
{
    if other.len() == 0 {
        m
    } else {
        mapping_extend(mapping_insert(m, other[0]), other.drop_first())
    }
}

/// The entries behind a sequence of entry references.
pub open spec fn deref_entries(v: Seq<(&Yaml, &Yaml)>) -> Seq<(Yaml, Yaml)> {
    v.map_values(|e: (&Yaml, &Yaml)| (*e.0, *e.1))
}

proof fn lemma_key_index(m: Seq<(Yaml, Yaml)>, key: Yaml, k: int)
    requires
        k == -1 || (0 <= k < m.len() && yaml_eq(key, m[k].0)),
        forall|j: int| 0 <= j < m.len() && (k == -1 || j < k) ==> !yaml_eq(key, #[trigger] m[j].0),
    ensures
        key_index(m, key) == k,
    decreases m.len(),
{
    if m.len() > 0 && !yaml_eq(key, m[0].0) {
        assert forall|j: int| 0 <= j < m.drop_first().len() && (k == -1 || j < k - 1) implies !yaml_eq(key, #[trigger] m.drop_first()[j].0) by {
            assert(m.drop_first()[j] == m[j + 1]);
        }
        if k == -1 {
            lemma_key_index(m.drop_first(), key, -1);
        } else {
            assert(m.drop_first()[k - 1] == m[k]);
            lemma_key_index(m.drop_first(), key, k - 1);
        }
    }
}

/// The position of the entry whose key equals `key`.
pub fn key_index_exec(m: &Vec<(&Yaml, &Yaml)>, key: &Yaml) -> (r: Option<usize>)
    ensures
        match r {
            Some(i) => key_index(deref_entries(m@), *key) == i && i < m@.len(),
            None => key_index(deref_entries(m@), *key) == -1,
        },
{
    let ghost d = deref_entries(m@);
    let mut i: usize = 0;
    while i < m.len()
        invariant
            d == deref_entries(m@),
            i <= m@.len(),
            forall|j: int| 0 <= j < i ==> !yaml_eq(*key, #[trigger] d[j].0),
        decreases m@.len() - i,
    {
        assert(d[i as int] == (*m@[i as int].0, *m@[i as int].1));
        if yaml_eq_exec(key, m[i].0) {
            proof {
                lemma_key_index(d, *key, i as int);
            }
            return Some(i);
        }
        i = i + 1;
    }
    proof {
        lemma_key_index(d, *key, -1);
    }
    None
}

/// Inserts every entry of `other`, in order (`Mapping::extend`).
pub fn mapping_extend_exec<'a>(m: &mut Vec<(&'a Yaml, &'a Yaml)>, other: &'a Vec<(Yaml, Yaml)>)
    ensures
        deref_entries(final(m)@) == mapping_extend(deref_entries(old(m)@), other@),
{
    let ghost start = deref_entries(m@);
    let mut i: usize = 0;
    assert(other@.skip(0) =~= other@);
    while i < other.len()
        invariant
            i <= other@.len(),
            mapping_extend(start, other@) == mapping_extend(deref_entries(m@), other@.skip(i as int)),
        decreases other@.len() - i,
    {
        let ghost before = deref_entries(m@);
        let key = &other[i].0;
        let value = &other[i].1;
        match key_index_exec(m, key) {
            Some(k) => {
                let stored = m[k].0;
                m.set(k, (stored, value));
                assert(deref_entries(m@) =~= before.update(k as int, (before[k as int].0, *value)));
            },
            None => {
                m.push((key, value));
                assert(deref_entries(m@) =~= before.push((*key, *value)));
            },
        }
        proof {
            assert(other@.skip(i as int)[0] == other@[i as int]);
            assert(other@.skip(i as int).drop_first() =~= other@.skip(i + 1));
            assert(deref_entries(m@) == mapping_insert(before, other@[i as int]));
        }
        i = i + 1;
    }
    assert(other@.skip(i as int) =~= Seq::<(Yaml, Yaml)>::empty());
}

} // verus!
