//! Typed properties of an OCR element and the parser of the attribute
//! mini-language `key value; key value; ...` that carries them.

use vstd::prelude::*;
use crate::number::{
    Decimal, abs, decimal_chars, decimal_of, decimal_text, digits_chars, digits_text, parse_decimal, parse_u32,
    u32_of,
};
use crate::text::{
    chars_of, clauses, is_white_space, no_separator, same_chars, split_chars, split_clauses, split_on, split_once_space,
    split_once_space_chars, string_of, trim, trim_chars, trim_quote_chars, trim_quotes,
};

verus! {

/// A bounding box: left, top, right and bottom edges in pixels.
#[derive(Debug, Clone, Copy, PartialEq, Eq, Structural)]
pub struct BBox {
    pub left: Decimal,
    pub top: Decimal,
    pub right: Decimal,
    pub bottom: Decimal,
}

/// One property value.
#[derive(Debug)]
pub enum OCRProperty {
    BBox(BBox),
    Image(String),
    Float(Decimal),
    UInt(u32),
    Baseline(Decimal, Decimal),
    ScanRes(u32, u32),
}

/// What a property value holds, with text as characters.
pub enum PropertyModel {
    BBox(BBox),
    Image(Seq<char>),
    Float(Decimal),
    UInt(u32),
    Baseline(Decimal, Decimal),
    ScanRes(u32, u32),
}

impl View for OCRProperty {
    type V = PropertyModel;

    open spec fn view(&self) -> PropertyModel {
        match self {
            OCRProperty::BBox(b) => PropertyModel::BBox(*b),
            OCRProperty::Image(p) => PropertyModel::Image(p@),
            OCRProperty::Float(f) => PropertyModel::Float(*f),
            OCRProperty::UInt(u) => PropertyModel::UInt(*u),
            OCRProperty::Baseline(a, b) => PropertyModel::Baseline(*a, *b),
            OCRProperty::ScanRes(a, b) => PropertyModel::ScanRes(*a, *b),
        }
    }
}

impl OCRProperty {
    /// The bounding box this value holds, if it is one.
    pub fn as_bbox(&self) -> (r: Option<&BBox>)
        ensures
            match self@ {
                PropertyModel::BBox(b) => r == Some(&b),
                _ => r is None,
            },
    {
        match self {
            OCRProperty::BBox(bbox) => Some(bbox),
            _ => None,
        }
    }

    /// A copy of this value.
    pub fn copy(&self) -> (r: OCRProperty)
        ensures
            r@ == self@,
    {
        match self {
            OCRProperty::BBox(b) => OCRProperty::BBox(*b),
            OCRProperty::Image(p) => OCRProperty::Image(p.clone()),
            OCRProperty::Float(f) => OCRProperty::Float(*f),
            OCRProperty::UInt(u) => OCRProperty::UInt(*u),
            OCRProperty::Baseline(a, b) => OCRProperty::Baseline(*a, *b),
            OCRProperty::ScanRes(a, b) => OCRProperty::ScanRes(*a, *b),
        }
    }
}

/// The bounding box that the value text of a `bbox` clause gives: its first
/// four space-separated tokens, once white space is trimmed from both ends.
pub open spec fn bbox_of(rest: Seq<char>) -> Option<BBox> {
    let t = split_on(trim(rest), ' ');
    if t.len() >= 4 && decimal_of(t[0]) is Some && decimal_of(t[1]) is Some && decimal_of(t[2]) is Some
        && decimal_of(t[3]) is Some {
        Some(
            BBox {
                left: decimal_of(t[0])->Some_0,
                top: decimal_of(t[1])->Some_0,
                right: decimal_of(t[2])->Some_0,
                bottom: decimal_of(t[3])->Some_0,
            },
        )
    } else {
        None
    }
}

/// Two decimal numbers: what stands before the first space and all that
/// follows it.
pub open spec fn decimal_pair_of(rest: Seq<char>) -> Option<(Decimal, Decimal)> {
    match split_once_space(rest) {
        Some((a, b)) => if decimal_of(a) is Some && decimal_of(b) is Some {
            Some((decimal_of(a)->Some_0, decimal_of(b)->Some_0))
        } else {
            None
        },
        None => None,
    }
}

/// Two unsigned integers: what stands before the first space and all that
/// follows it.
pub open spec fn u32_pair_of(rest: Seq<char>) -> Option<(u32, u32)> {
    match split_once_space(rest) {
        Some((a, b)) => if u32_of(a) is Some && u32_of(b) is Some {
            Some((u32_of(a)->Some_0, u32_of(b)->Some_0))
        } else {
            None
        },
        None => None,
    }
}

/// The value of a clause with key `key` and value text `rest`; `None` for an
/// unknown key or a value text that does not read as the key's type.
pub open spec fn property_of(key: Seq<char>, rest: Seq<char>) -> Option<PropertyModel> {
    if key == "image"@ {
        Some(PropertyModel::Image(trim_quotes(rest)))
    } else if key == "bbox"@ {
        match bbox_of(rest) {
            Some(b) => Some(PropertyModel::BBox(b)),
            None => None,
        }
    } else if key == "baseline"@ {
        match decimal_pair_of(rest) {
            Some((a, b)) => Some(PropertyModel::Baseline(a, b)),
            None => None,
        }
    } else if key == "ppageno"@ || key == "x_wconf"@ {
        match u32_of(rest) {
            Some(v) => Some(PropertyModel::UInt(v)),
            None => None,
        }
    } else if key == "scan_res"@ {
        match u32_pair_of(rest) {
            Some((a, b)) => Some(PropertyModel::ScanRes(a, b)),
            None => None,
        }
    } else if key == "x_size"@ || key == "x_descenders"@ || key == "x_ascenders"@ {
        match decimal_of(rest) {
            Some(v) => Some(PropertyModel::Float(v)),
            None => None,
        }
    } else {
        None
    }
}

/// The entry that a clause gives: the trimmed text before its first space is
/// the key, what follows that space is the value text.
pub open spec fn clause_entry(c: Seq<char>) -> Option<(Seq<char>, PropertyModel)> {
    match split_once_space(c) {
        Some((prefix, rest)) => match property_of(trim(prefix), rest) {
            Some(v) => Some((trim(prefix), v)),
            None => None,
        },
        None => None,
    }
}

/// Some entry of `m` has key `k`.
pub open spec fn has_key(m: Seq<(Seq<char>, PropertyModel)>, k: Seq<char>) -> bool {
    exists|i: int| 0 <= i < m.len() && #[trigger] m[i].0 == k
}

/// No key occurs twice.
pub open spec fn unique_keys(m: Seq<(Seq<char>, PropertyModel)>) -> bool {
    forall|i: int, j: int| 0 <= i < m.len() && 0 <= j < m.len() && i != j ==> #[trigger] m[i].0 != #[trigger] m[j].0
}

/// Where key `k` stands in `m`.
pub open spec fn key_index(m: Seq<(Seq<char>, PropertyModel)>, k: Seq<char>) -> int {
    choose|i: int| 0 <= i < m.len() && #[trigger] m[i].0 == k
}

/// `m` with `k` set to `v`: in place where `k` is there, else at the end.
pub open spec fn put(m: Seq<(Seq<char>, PropertyModel)>, k: Seq<char>, v: PropertyModel) -> Seq<
    (Seq<char>, PropertyModel),
> {
    if has_key(m, k) {
        m.update(key_index(m, k), (k, v))
    } else {
        m.push((k, v))
    }
}

/// The entries that the clauses `cls` give, read in order, a later clause
/// overriding an earlier one with the same key.
pub open spec fn collect(cls: Seq<Seq<char>>) -> Seq<(Seq<char>, PropertyModel)>
    decreases cls.len(),
{
    if cls.len() == 0 {
        Seq::empty()
    } else {
        let m = collect(cls.drop_last());
        match clause_entry(cls.last()) {
            Some((k, v)) => put(m, k, v),
            None => m,
        }
    }
}

/// Setting a key keeps the keys of a map apart.
pub proof fn lemma_put_unique(m: Seq<(Seq<char>, PropertyModel)>, k: Seq<char>, v: PropertyModel)
    requires
        unique_keys(m),
    ensures
        unique_keys(put(m, k, v)),
{
    let r = put(m, k, v);
    if has_key(m, k) {
        let i = key_index(m, k);
        assert forall|a: int, b: int| 0 <= a < r.len() && 0 <= b < r.len() && a != b implies #[trigger] r[a].0
            != #[trigger] r[b].0 by {
            assert(r[a].0 == m[a].0);
            assert(r[b].0 == m[b].0);
        }
    } else {
        assert forall|a: int, b: int| 0 <= a < r.len() && 0 <= b < r.len() && a != b implies #[trigger] r[a].0
            != #[trigger] r[b].0 by {
            if a < m.len() && b < m.len() {
                assert(r[a].0 == m[a].0);
                assert(r[b].0 == m[b].0);
            } else if a < m.len() {
                assert(r[a].0 == m[a].0);
            } else {
                assert(r[b].0 == m[b].0);
            }
        }
    }
}

/// The entries that clauses give never repeat a key.
pub proof fn lemma_collect_unique(cls: Seq<Seq<char>>)
    ensures
        unique_keys(collect(cls)),
    decreases cls.len(),
{
    if cls.len() > 0 {
        lemma_collect_unique(cls.drop_last());
        match clause_entry(cls.last()) {
            Some((k, v)) => lemma_put_unique(collect(cls.drop_last()), k, v),
            None => {},
        }
    }
}

/// The properties of an attribute text, or `None` where they hold no
/// bounding box.
pub open spec fn properties_of(text: Seq<char>) -> Option<Seq<(Seq<char>, PropertyModel)>> {
    let m = collect(clauses(text));
    if has_key(m, "bbox"@) {
        Some(m)
    } else {
        None
    }
}

/// Why an attribute text gave no properties.
#[derive(Debug, Clone, Copy, PartialEq, Eq, Structural)]
pub enum PropertyError {
    /// No clause gave a bounding box.
    MissingBoundingBox,
}

/// A map from property names to values, in the order the names first came.
pub struct Properties {
    entries: Vec<(String, OCRProperty)>,
}

impl View for Properties {
    type V = Seq<(Seq<char>, PropertyModel)>;

    closed spec fn view(&self) -> Seq<(Seq<char>, PropertyModel)> {
        Seq::new(self.entries@.len(), |i: int| (self.entries@[i].0@, self.entries@[i].1@))
    }
}

/// Whether `a` and `b` hold the same characters.
fn same_str(a: &str, b: &str) -> (r: bool)
    ensures
        r == (a@ == b@),
{
    let n = a.unicode_len();
    if n != b.unicode_len() {
        return false;
    }
    let mut i: usize = 0;
    while i < n
        invariant
            n == a@.len(),
            a@.len() == b@.len(),
            i <= n,
            forall|j: int| 0 <= j < i ==> a@[j] == b@[j],
        decreases n - i,
    {
        if a.get_char(i) != b.get_char(i) {
            return false;
        }
        i = i + 1;
    }
    assert(a@ =~= b@);
    true
}

impl Properties {
    /// An empty map.
    pub fn new() -> (r: Properties)
        ensures
            r@ == Seq::<(Seq<char>, PropertyModel)>::empty(),
    {
        let r = Properties { entries: Vec::new() };
        assert(r@ =~= Seq::<(Seq<char>, PropertyModel)>::empty());
        r
    }

    /// A copy of this map.
    pub fn copy(&self) -> (r: Properties)
        ensures
            r@ == self@,
    {
        let mut entries: Vec<(String, OCRProperty)> = Vec::new();
        let mut i: usize = 0;
        while i < self.entries.len()
            invariant
                i <= self.entries@.len(),
                entries@.len() == i,
                forall|j: int|
                    0 <= j < i ==> (#[trigger] entries@[j]).0@ == self.entries@[j].0@ && entries@[j].1@
                        == self.entries@[j].1@,
            decreases self.entries@.len() - i,
        {
            let k = self.entries[i].0.clone();
            let v = self.entries[i].1.copy();
            entries.push((k, v));
            i = i + 1;
        }
        let r = Properties { entries };
        assert(r@ =~= self@);
        r
    }

    /// The number of entries.
    pub fn len(&self) -> (r: usize)
        ensures
            r == self@.len(),
    {
        self.entries.len()
    }

    /// The name of entry `i`.
    pub fn key_at(&self, i: usize) -> (r: &String)
        requires
            i < self@.len(),
        ensures
            r@ == self@[i as int].0,
    {
        &self.entries[i].0
    }

    /// The value of entry `i`.
    pub fn value_at(&self, i: usize) -> (r: &OCRProperty)
        requires
            i < self@.len(),
        ensures
            r@ == self@[i as int].1,
    {
        &self.entries[i].1
    }

    /// The value stored under `key`, if any.
    pub fn get(&self, key: &str) -> (r: Option<&OCRProperty>)
        requires
            unique_keys(self@),
        ensures
            match r {
                Some(v) => has_key(self@, key@) && v@ == self@[key_index(self@, key@)].1,
                None => !has_key(self@, key@),
            },
    {
        let mut i: usize = 0;
        while i < self.entries.len()
            invariant
                i <= self@.len(),
                unique_keys(self@),
                self@.len() == self.entries@.len(),
                forall|j: int| 0 <= j < i ==> self@[j].0 != key@,
            decreases self@.len() - i,
        {
            if same_str(self.entries[i].0.as_str(), key) {
                assert(self@[i as int].0 == key@);
                assert(has_key(self@, key@));
                let ghost k = key_index(self@, key@);
                assert(self@[k].0 == key@);
                assert(k == i as int) by {
                    if k != i as int {
                        assert(self@[k].0 != self@[i as int].0);
                    }
                }
                return Some(&self.entries[i].1);
            }
            i = i + 1;
        }
        None
    }

    /// Sets `key` to `value`: in place where `key` is there, else at the end.
    pub fn insert(&mut self, key: String, value: OCRProperty)
        requires
            unique_keys(old(self)@),
        ensures
            final(self)@ == put(old(self)@, key@, value@),
            unique_keys(final(self)@),
    {
        let ghost m = self@;
        let mut i: usize = 0;
        while i < self.entries.len()
            invariant
                i <= m.len(),
                self@ == m,
                m == old(self)@,
                unique_keys(m),
                m.len() == self.entries@.len(),
                forall|j: int| 0 <= j < i ==> m[j].0 != key@,
            decreases m.len() - i,
        {
            if self.entries[i].0 == key {
                assert(m[i as int].0 == key@);
                assert(has_key(m, key@));
                let ghost k = key_index(m, key@);
                assert(m[k].0 == key@);
                assert(k == i as int) by {
                    if k != i as int {
                        assert(m[k].0 != m[i as int].0);
                    }
                }
                let ghost v = value@;
                let ghost kv = key@;
                assert(put(m, kv, v) == m.update(i as int, (kv, v)));
                self.entries.set(i, (key, value));
                assert(self@ =~= m.update(i as int, (kv, v)));
                assert(unique_keys(self@)) by {
                    assert forall|a: int, b: int| 0 <= a < self@.len() && 0 <= b < self@.len() && a != b implies self@[a].0
                        != self@[b].0 by {
                        assert(self@[a].0 == m[a].0);
                        assert(self@[b].0 == m[b].0);
                    }
                }
                return;
            }
            i = i + 1;
        }
        let ghost kv = key@;
        let ghost vv = value@;
        self.entries.push((key, value));
        assert(self@ =~= m.push((kv, vv)));
        assert(unique_keys(self@)) by {
            assert forall|a: int, b: int| 0 <= a < self@.len() && 0 <= b < self@.len() && a != b implies self@[a].0
                != self@[b].0 by {
                if a < m.len() && b < m.len() {
                    assert(m[a].0 != m[b].0);
                }
            }
        }
    }
}

/// The entry that the clause `c` gives, as `clause_entry` says.
fn parse_clause(c: &Vec<char>) -> (r: Option<(Vec<char>, OCRProperty)>)
    ensures
        match r {
            Some((k, v)) => clause_entry(c@) == Some((k@, v@)),
            None => clause_entry(c@) is None,
        },
{
    let (prefix, rest) = match split_once_space_chars(c) {
        Some(parts) => parts,
        None => {
            return None;
        },
    };
    let key = trim_chars(&prefix);
    let value = if same_chars(&key, &chars_of("image")) {
        Some(OCRProperty::Image(string_of(&trim_quote_chars(&rest))))
    } else if same_chars(&key, &chars_of("bbox")) {
        match parse_bbox(&rest) {
            Some(b) => Some(OCRProperty::BBox(b)),
            None => None,
        }
    } else if same_chars(&key, &chars_of("baseline")) {
        match parse_decimal_pair(&rest) {
            Some((a, b)) => Some(OCRProperty::Baseline(a, b)),
            None => None,
        }
    } else if same_chars(&key, &chars_of("ppageno")) || same_chars(&key, &chars_of("x_wconf")) {
        match parse_u32(&rest) {
            Some(v) => Some(OCRProperty::UInt(v)),
            None => None,
        }
    } else if same_chars(&key, &chars_of("scan_res")) {
        match parse_u32_pair(&rest) {
            Some((a, b)) => Some(OCRProperty::ScanRes(a, b)),
            None => None,
        }
    } else if same_chars(&key, &chars_of("x_size")) || same_chars(&key, &chars_of("x_descenders")) || same_chars(
        &key,
        &chars_of("x_ascenders"),
    ) {
        match parse_decimal(&rest) {
            Some(v) => Some(OCRProperty::Float(v)),
            None => None,
        }
    } else {
        None
    };
    match value {
        Some(v) => Some((key, v)),
        None => None,
    }
}

/// Reads the value text of a `bbox` clause, as `bbox_of` says.
pub fn parse_bbox(rest: &Vec<char>) -> (r: Option<BBox>)
    ensures
        r == bbox_of(rest@),
{
    let t = split_chars(&trim_chars(rest), ' ');
    if t.len() < 4 {
        return None;
    }
    let l = parse_decimal(&t[0]);
    let tp = parse_decimal(&t[1]);
    let rt = parse_decimal(&t[2]);
    let b = parse_decimal(&t[3]);
    match (l, tp, rt, b) {
        (Some(left), Some(top), Some(right), Some(bottom)) => Some(BBox { left, top, right, bottom }),
        _ => None,
    }
}

fn parse_decimal_pair(rest: &Vec<char>) -> (r: Option<(Decimal, Decimal)>)
    ensures
        r == decimal_pair_of(rest@),
{
    match split_once_space_chars(rest) {
        Some((a, b)) => match (parse_decimal(&a), parse_decimal(&b)) {
            (Some(x), Some(y)) => Some((x, y)),
            _ => None,
        },
        None => None,
    }
}

fn parse_u32_pair(rest: &Vec<char>) -> (r: Option<(u32, u32)>)
    ensures
        r == u32_pair_of(rest@),
{
    match split_once_space_chars(rest) {
        Some((a, b)) => match (parse_u32(&a), parse_u32(&b)) {
            (Some(x), Some(y)) => Some((x, y)),
            _ => None,
        },
        None => None,
    }
}

impl OCRProperty {
    /// Reads an attribute text into properties. Fails where no clause gives a
    /// bounding box.
    #[verifier::rlimit(80)]
    pub fn parse_properties(title_content: &str) -> (r: Result<Properties, PropertyError>)
        ensures
            match r {
                Ok(m) => properties_of(title_content@) == Some(m@) && unique_keys(m@),
                Err(e) => properties_of(title_content@) is None && e == PropertyError::MissingBoundingBox,
            },
    {
        let cs = chars_of(title_content);
        let mut props = Properties::new();
        let mut cur: Vec<char> = Vec::new();
        let ghost mut done: Seq<Seq<char>> = Seq::empty();
        let mut i: usize = 0;
        assert(cs@.take(0) =~= Seq::<char>::empty());
        while i < cs.len()
            invariant
                i <= cs@.len(),
                split_clauses(cs@.take(i as int)) == done.push(cur@),
                props@ == collect(done),
                unique_keys(props@),
            decreases cs@.len() - i,
        {
            let c = cs[i];
            assert(cs@.take(i + 1).drop_last() =~= cs@.take(i as int));
            assert(cs@.take(i + 1).last() == c);
            let n = cur.len();
            if c == ' ' && n > 0 && cur[n - 1] == ';' {
                let ghost before = cur@;
                cur.pop();
                assert(cur@ == before.drop_last());
                add_clause(&mut props, &cur);
                proof {
                    assert(done.push(cur@).drop_last() == done);
                    done = done.push(cur@);
                }
                cur = Vec::new();
                assert(done.drop_last().push(before).update(done.len() - 1, before.drop_last()).push(
                    Seq::<char>::empty(),
                ) =~= done.push(cur@));
            } else {
                let ghost before = cur@;
                cur.push(c);
                assert(done.push(before).update(done.len() as int, before.push(c)) =~= done.push(cur@));
            }
            i = i + 1;
        }
        assert(cs@.take(cs@.len() as int) =~= cs@);
        if cur.len() > 0 {
            add_clause(&mut props, &cur);
            assert(done.push(cur@).drop_last() == done);
        } else {
            assert(done.push(cur@).drop_last() == done);
        }
        if props.get("bbox").is_some() {
            Ok(props)
        } else {
            Err(PropertyError::MissingBoundingBox)
        }
    }
}

/// Adds the entry of the clause `c`, if it gives one.
fn add_clause(props: &mut Properties, c: &Vec<char>)
    requires
        unique_keys(old(props)@),
    ensures
        unique_keys(final(props)@),
        final(props)@ == match clause_entry(c@) {
            Some((k, v)) => put(old(props)@, k, v),
            None => old(props)@,
        },
{
    match parse_clause(c) {
        Some((k, v)) => {
            props.insert(string_of(&k), v);
        },
        None => {},
    }
}

/// A property value written out: numbers as `decimal_text` and `digits_text`
/// write them, a bounding box as its four edges and the other pairs separated
/// by single spaces, an image path between double quotes.
pub open spec fn property_text(p: PropertyModel) -> Seq<char> {
    match p {
        PropertyModel::BBox(b) => decimal_text(b.left) + seq![' '] + decimal_text(b.top) + seq![' '] + decimal_text(
            b.right,
        ) + seq![' '] + decimal_text(b.bottom),
        PropertyModel::Image(path) => seq!['"'] + path + seq!['"'],
        PropertyModel::Float(f) => decimal_text(f),
        PropertyModel::UInt(u) => digits_text(u as nat),
        PropertyModel::Baseline(a, b) => decimal_text(a) + seq![' '] + decimal_text(b),
        PropertyModel::ScanRes(a, b) => digits_text(a as nat) + seq![' '] + digits_text(b as nat),
    }
}

/// One clause written out: the name, a space, the value.
pub open spec fn clause_text(e: (Seq<char>, PropertyModel)) -> Seq<char> {
    e.0 + seq![' '] + property_text(e.1)
}

/// All clauses written out, separated by `"; "`.
pub open spec fn title_text(m: Seq<(Seq<char>, PropertyModel)>) -> Seq<char>
    decreases m.len(),
{
    if m.len() == 0 {
        Seq::empty()
    } else if m.len() == 1 {
        clause_text(m[0])
    } else {
        title_text(m.drop_last()) + seq![';', ' '] + clause_text(m.last())
    }
}

fn append(v: &mut Vec<char>, w: &Vec<char>)
    ensures
        final(v)@ == old(v)@ + w@,
{
    let mut i: usize = 0;
    while i < w.len()
        invariant
            i <= w@.len(),
            v@ == old(v)@ + w@.take(i as int),
        decreases w@.len() - i,
    {
        v.push(w[i]);
        i = i + 1;
        assert(v@ =~= old(v)@ + w@.take(i as int));
    }
    assert(w@.take(w@.len() as int) =~= w@);
}

impl OCRProperty {
    /// The characters of this value written out, as `property_text` says.
    pub fn text_chars(&self) -> (r: Vec<char>)
        ensures
            r@ == property_text(self@),
    {
        match self {
            OCRProperty::BBox(b) => {
                let mut r = decimal_chars(b.left);
                r.push(' ');
                append(&mut r, &decimal_chars(b.top));
                r.push(' ');
                append(&mut r, &decimal_chars(b.right));
                r.push(' ');
                append(&mut r, &decimal_chars(b.bottom));
                r
            },
            OCRProperty::Image(path) => {
                let mut r: Vec<char> = Vec::new();
                r.push('"');
                append(&mut r, &chars_of(path.as_str()));
                r.push('"');
                assert(r@ =~= seq!['"'] + path@ + seq!['"']);
                r
            },
            OCRProperty::Float(f) => decimal_chars(*f),
            OCRProperty::UInt(u) => digits_chars(*u as u64),
            OCRProperty::Baseline(a, b) => {
                let mut r = decimal_chars(*a);
                r.push(' ');
                append(&mut r, &decimal_chars(*b));
                r
            },
            OCRProperty::ScanRes(a, b) => {
                let mut r = digits_chars(*a as u64);
                r.push(' ');
                append(&mut r, &digits_chars(*b as u64));
                r
            },
        }
    }

    /// This value written out, as `property_text` says.
    pub fn to_str(&self) -> (r: String)
        ensures
            r@ == property_text(self@),
    {
        string_of(&self.text_chars())
    }
}

impl Properties {
    /// The attribute text that holds these properties, as `title_text` says.
    pub fn title(&self) -> (r: String)
        ensures
            r@ == title_text(self@),
    {
        let mut r: Vec<char> = Vec::new();
        let mut i: usize = 0;
        assert(self@.take(0) =~= Seq::<(Seq<char>, PropertyModel)>::empty());
        while i < self.len()
            invariant
                i <= self@.len(),
                r@ == title_text(self@.take(i as int)),
            decreases self@.len() - i,
        {
            assert(self@.take(i + 1).drop_last() =~= self@.take(i as int));
            assert(self@.take(i + 1).last() == self@[i as int]);
            if i > 0 {
                r.push(';');
                r.push(' ');
            }
            let ghost before = r@;
            append(&mut r, &chars_of(self.key_at(i).as_str()));
            r.push(' ');
            append(&mut r, &self.value_at(i).text_chars());
            proof {
                if i == 0 {
                    assert(before =~= Seq::<char>::empty());
                    assert(self@.take(1).len() == 1);
                    assert(r@ =~= clause_text(self@[0]));
                } else {
                    assert(r@ =~= title_text(self@.take(i as int)) + seq![';', ' '] + clause_text(self@[i as int]));
                }
            }
            i = i + 1;
        }
        assert(self@.take(self@.len() as int) =~= self@);
        string_of(&r)
    }
}

/// The characters of a well-formed number are digits, signs and points:
/// never white space.
proof fn lemma_number_chars(s: Seq<char>)
    requires
        decimal_of(s) is Some,
    ensures
        s.len() > 0,
        forall|i: int| 0 <= i < s.len() ==> !crate::text::is_white_space(#[trigger] s[i]) && s[i] != ';',
{
    let body = if s.len() > 0 && (s[0] == '-' || s[0] == '+') {
        s.drop_first()
    } else {
        s
    };
    let ip = crate::number::int_part(body);
    let fp = crate::number::frac_part(body);
    assert forall|i: int| 0 <= i < s.len() implies !crate::text::is_white_space(#[trigger] s[i]) && s[i] != ';' by {
        if s.len() > 0 && (s[0] == '-' || s[0] == '+') && i == 0 {
        } else {
            let j = if s.len() > 0 && (s[0] == '-' || s[0] == '+') { i - 1 } else { i };
            assert(body[j] == s[i]);
            if body.contains('.') {
                let k = body.index_of('.');
                if j < k {
                    assert(ip[j] == body[j]);
                } else if j > k {
                    assert(fp[j - k - 1] == body[j]);
                }
            } else {
                assert(ip[j] == body[j]);
            }
        }
    }
    if s.len() == 0 {
        assert(ip.len() == 0);
    }
}

/// A `bbox` value text of four well-formed numbers separated by single
/// spaces gives those four numbers, in order, as left, top, right and bottom.
#[verifier::rlimit(80)]
pub proof fn lemma_bbox_four_numbers(l: Seq<char>, t: Seq<char>, r: Seq<char>, b: Seq<char>)
    requires
        decimal_of(l) is Some,
        decimal_of(t) is Some,
        decimal_of(r) is Some,
        decimal_of(b) is Some,
    ensures
        bbox_of(l + seq![' '] + t + seq![' '] + r + seq![' '] + b) == Some(
            BBox {
                left: decimal_of(l)->Some_0,
                top: decimal_of(t)->Some_0,
                right: decimal_of(r)->Some_0,
                bottom: decimal_of(b)->Some_0,
            },
        ),
{
    lemma_number_chars(l);
    lemma_number_chars(t);
    lemma_number_chars(r);
    lemma_number_chars(b);
    let x1 = l + seq![' '] + t;
    let x2 = x1 + seq![' '] + r;
    let s = x2 + seq![' '] + b;
    assert forall|q: Seq<char>| decimal_of(q) is Some implies !(#[trigger] q.contains(' ')) by {
        lemma_number_chars(q);
        if q.contains(' ') {
            let k = q.index_of(' ');
            assert(crate::text::is_white_space(q[k]));
        }
    }
    assert(s[0] == l[0]);
    assert(s.last() == b.last());
    assert(crate::text::strip_start(s, false) == s);
    assert(crate::text::strip_end(s, false) == s);
    assert(trim(s) == s);
    crate::text::lemma_split_single(l, ' ');
    crate::text::lemma_split_single(t, ' ');
    crate::text::lemma_split_single(r, ' ');
    crate::text::lemma_split_single(b, ' ');
    crate::text::lemma_split_concat(l, t, ' ');
    crate::text::lemma_split_concat(x1, r, ' ');
    crate::text::lemma_split_concat(x2, b, ' ');
    assert(split_on(s, ' ') =~= seq![l, t, r, b]);
}

/// An entry that reads back as itself once written out: a known key with a
/// value of its kind, numbers of at most 18 digits, an image path without double quotes at its
/// ends and without `"; "` inside.
pub open spec fn entry_round_trips(e: (Seq<char>, PropertyModel)) -> bool {
    match e.1 {
        PropertyModel::BBox(b) => {
            &&& e.0 == "bbox"@
            &&& short_decimal(b.left)
            &&& short_decimal(b.top)
            &&& short_decimal(b.right)
            &&& short_decimal(b.bottom)
        },
        PropertyModel::Image(p) => {
            &&& e.0 == "image"@
            &&& (p.len() > 0 ==> p[0] != '"' && p.last() != '"')
            &&& no_separator(p)
        },
        PropertyModel::Float(f) => (e.0 == "x_size"@ || e.0 == "x_descenders"@ || e.0 == "x_ascenders"@)
            && short_decimal(f),
        PropertyModel::UInt(_) => e.0 == "ppageno"@ || e.0 == "x_wconf"@,
        PropertyModel::Baseline(a, b) => e.0 == "baseline"@ && short_decimal(a) && short_decimal(b),
        PropertyModel::ScanRes(_, _) => e.0 == "scan_res"@,
    }
}

/// `d` has at most 18 digits, counting the zeros written before them.
pub open spec fn short_decimal(d: Decimal) -> bool {
    digits_text(abs(d.units as int)).len() <= 18 && d.scale + 1 <= 18
}

proof fn lemma_keys_distinct()
    ensures
        "image"@ != "bbox"@,
        "image"@ != "baseline"@,
        "image"@ != "ppageno"@,
        "image"@ != "x_wconf"@,
        "image"@ != "scan_res"@,
        "image"@ != "x_size"@,
        "image"@ != "x_descenders"@,
        "image"@ != "x_ascenders"@,
        "bbox"@ != "baseline"@,
        "bbox"@ != "ppageno"@,
        "bbox"@ != "x_wconf"@,
        "bbox"@ != "scan_res"@,
        "bbox"@ != "x_size"@,
        "bbox"@ != "x_descenders"@,
        "bbox"@ != "x_ascenders"@,
        "baseline"@ != "ppageno"@,
        "baseline"@ != "x_wconf"@,
        "baseline"@ != "scan_res"@,
        "baseline"@ != "x_size"@,
        "baseline"@ != "x_descenders"@,
        "baseline"@ != "x_ascenders"@,
        "ppageno"@ != "scan_res"@,
        "ppageno"@ != "x_size"@,
        "ppageno"@ != "x_descenders"@,
        "ppageno"@ != "x_ascenders"@,
        "x_wconf"@ != "scan_res"@,
        "x_wconf"@ != "x_size"@,
        "x_wconf"@ != "x_descenders"@,
        "x_wconf"@ != "x_ascenders"@,
        "scan_res"@ != "x_size"@,
        "scan_res"@ != "x_descenders"@,
        "scan_res"@ != "x_ascenders"@,
{
    reveal_strlit("image");
    reveal_strlit("bbox");
    reveal_strlit("baseline");
    reveal_strlit("ppageno");
    reveal_strlit("x_wconf");
    reveal_strlit("scan_res");
    reveal_strlit("x_size");
    reveal_strlit("x_descenders");
    reveal_strlit("x_ascenders");
    assert("image"@[0] != "bbox"@[0]);
    assert("image"@[0] != "baseline"@[0]);
    assert("image"@[0] != "ppageno"@[0]);
    assert("image"@[0] != "x_wconf"@[0]);
    assert("image"@[0] != "scan_res"@[0]);
    assert("image"@[0] != "x_size"@[0]);
    assert("image"@[0] != "x_descenders"@[0]);
    assert("image"@[0] != "x_ascenders"@[0]);
    assert("bbox"@.len() != "baseline"@.len());
    assert("bbox"@[0] != "ppageno"@[0]);
    assert("bbox"@[0] != "x_wconf"@[0]);
    assert("bbox"@[0] != "scan_res"@[0]);
    assert("bbox"@[0] != "x_size"@[0]);
    assert("bbox"@[0] != "x_descenders"@[0]);
    assert("bbox"@[0] != "x_ascenders"@[0]);
    assert("baseline"@[0] != "ppageno"@[0]);
    assert("baseline"@[0] != "x_wconf"@[0]);
    assert("baseline"@[0] != "scan_res"@[0]);
    assert("baseline"@[0] != "x_size"@[0]);
    assert("baseline"@[0] != "x_descenders"@[0]);
    assert("baseline"@[0] != "x_ascenders"@[0]);
    assert("ppageno"@[0] != "scan_res"@[0]);
    assert("ppageno"@[0] != "x_size"@[0]);
    assert("ppageno"@[0] != "x_descenders"@[0]);
    assert("ppageno"@[0] != "x_ascenders"@[0]);
    assert("x_wconf"@[0] != "scan_res"@[0]);
    assert("x_wconf"@[2] != "x_size"@[2]);
    assert("x_wconf"@[2] != "x_descenders"@[2]);
    assert("x_wconf"@[2] != "x_ascenders"@[2]);
    assert("scan_res"@[0] != "x_size"@[0]);
    assert("scan_res"@[0] != "x_descenders"@[0]);
    assert("scan_res"@[0] != "x_ascenders"@[0]);
}

proof fn lemma_no_semicolon(s: Seq<char>)
    requires
        forall|i: int| 0 <= i < s.len() ==> #[trigger] s[i] != ';',
    ensures
        no_separator(s),
{
}

proof fn lemma_no_separator_concat(a: Seq<char>, b: Seq<char>)
    requires
        no_separator(a),
        no_separator(b),
        a.len() > 0 && b.len() > 0 ==> !(a.last() == ';' && b[0] == ' '),
    ensures
        no_separator(a + b),
{
    let s = a + b;
    assert forall|i: int| 0 <= i < s.len() - 1 implies !(#[trigger] s[i] == ';' && s[i + 1] == ' ') by {
        if i + 1 < a.len() {
            assert(s[i] == a[i] && s[i + 1] == a[i + 1]);
        } else if i >= a.len() {
            assert(s[i] == b[i - a.len()] && s[i + 1] == b[i + 1 - a.len()]);
        } else {
            assert(s[i] == a.last() && s[i + 1] == b[0]);
        }
    }
}

/// The characters of a number written out are digits, a minus sign or a
/// point.
proof fn lemma_decimal_text_chars(d: Decimal)
    ensures
        forall|i: int|
            0 <= i < decimal_text(d).len() ==> {
                let c = #[trigger] decimal_text(d)[i];
                c != ' ' && c != ';' && c != '"'
            },
{
    crate::number::lemma_padded(d);
    let p = crate::number::padded_digits(d);
    let s = decimal_text(d);
    assert forall|i: int| 0 <= i < s.len() implies {
        let c = #[trigger] s[i];
        c != ' ' && c != ';' && c != '"'
    } by {
        let sign: int = if d.units < 0 { 1 } else { 0 };
        if i >= sign {
            let j = i - sign;
            if d.scale == 0 {
                assert(s[i] == p[j]);
            } else {
                let cut = p.len() - d.scale;
                if j < cut {
                    assert(s[i] == p[j]);
                } else if j > cut {
                    assert(s[i] == p[j - 1]);
                }
            }
        }
    }
}

proof fn lemma_digits_chars_plain(n: nat)
    ensures
        forall|i: int|
            0 <= i < digits_text(n).len() ==> {
                let c = #[trigger] digits_text(n)[i];
                c != ' ' && c != ';' && c != '"' && crate::number::is_digit(c)
            },
{
    crate::number::lemma_digits_text_digits(n);
}

proof fn lemma_trim_quotes_wrapped(p: Seq<char>)
    requires
        p.len() > 0 ==> p[0] != '"' && p.last() != '"',
    ensures
        trim_quotes(seq!['"'] + p + seq!['"']) == p,
{
    let s = seq!['"'] + p + seq!['"'];
    assert(s.drop_first() =~= p + seq!['"']);
    assert(s[0] == '"');
    assert(crate::text::strip_start(s, true) == crate::text::strip_start(s.drop_first(), true));
    let q = p + seq!['"'];
    assert(q.last() == '"');
    if p.len() > 0 {
        assert(q[0] == p[0]);
        assert(crate::text::strip_start(q, true) == q);
        assert(q.drop_last() =~= p);
        assert(crate::text::strip_end(q, true) == crate::text::strip_end(q.drop_last(), true));
        assert(crate::text::strip_end(p, true) == p);
    } else {
        assert(q =~= seq!['"']);
        assert(q.drop_first() =~= Seq::<char>::empty());
        assert(crate::text::strip_start(q, true) == crate::text::strip_start(q.drop_first(), true));
        assert(crate::text::strip_start(Seq::<char>::empty(), true) == Seq::<char>::empty());
        assert(crate::text::strip_end(Seq::<char>::empty(), true) == Seq::<char>::empty());
        assert(p =~= Seq::<char>::empty());
    }
}

/// Two values written with a space between read back as the two parts.
proof fn lemma_pair_split(a: Seq<char>, b: Seq<char>)
    requires
        forall|i: int| 0 <= i < a.len() ==> #[trigger] a[i] != ' ',
    ensures
        split_once_space(a + seq![' '] + b) == Some((a, b)),
{
    let s = a + seq![' '] + b;
    assert forall|j: int| 0 <= j < a.len() implies s[j] != ' ' by {
        assert(s[j] == a[j]);
    }
    crate::text::lemma_split_once_at(s, a.len() as int);
    assert(s.take(a.len() as int) =~= a);
    assert(s.skip(a.len() as int + 1) =~= b);
}

/// `k` is one of the property names the parser knows.
pub open spec fn known_key(k: Seq<char>) -> bool {
    ||| k == "image"@
    ||| k == "bbox"@
    ||| k == "baseline"@
    ||| k == "ppageno"@
    ||| k == "x_wconf"@
    ||| k == "scan_res"@
    ||| k == "x_size"@
    ||| k == "x_descenders"@
    ||| k == "x_ascenders"@
}

proof fn lemma_key_plain(k: Seq<char>)
    requires
        known_key(k),
    ensures
        k.len() > 0,
        forall|i: int| 0 <= i < k.len() ==> #[trigger] k[i] != ' ' && k[i] != ';' && !is_white_space(k[i]),
        trim(k) == k,
{
    reveal_strlit("image");
    reveal_strlit("bbox");
    reveal_strlit("baseline");
    reveal_strlit("ppageno");
    reveal_strlit("x_wconf");
    reveal_strlit("scan_res");
    reveal_strlit("x_size");
    reveal_strlit("x_descenders");
    reveal_strlit("x_ascenders");
    assert forall|i: int| 0 <= i < k.len() implies #[trigger] k[i] != ' ' && k[i] != ';' && !is_white_space(k[i]) by {
        assert('a' <= k[i] && k[i] <= 'z' || k[i] == '_');
    }
    assert(crate::text::strip_start(k, false) == k);
    assert(crate::text::strip_end(k, false) == k);
}

/// An entry that round-trips reads back from the clause it is written as,
/// and that clause holds no `"; "`.
#[verifier::rlimit(80)]
pub proof fn lemma_entry_round_trip(e: (Seq<char>, PropertyModel))
    requires
        entry_round_trips(e),
    ensures
        clause_entry(clause_text(e)) == Some(e),
        no_separator(clause_text(e)),
        clause_text(e).len() > 0,
{
    lemma_keys_distinct();
    let k = e.0;
    let t = property_text(e.1);
    assert(known_key(k));
    lemma_key_plain(k);
    lemma_pair_split(k, t);
    assert(clause_text(e) == k + seq![' '] + t);
    match e.1 {
        PropertyModel::BBox(b) => {
            crate::number::lemma_decimal_round_trip(b.left);
            crate::number::lemma_decimal_round_trip(b.top);
            crate::number::lemma_decimal_round_trip(b.right);
            crate::number::lemma_decimal_round_trip(b.bottom);
            lemma_bbox_four_numbers(decimal_text(b.left), decimal_text(b.top), decimal_text(b.right), decimal_text(b.bottom));
            lemma_decimal_text_chars(b.left);
            lemma_decimal_text_chars(b.top);
            lemma_decimal_text_chars(b.right);
            lemma_decimal_text_chars(b.bottom);
            let l1 = decimal_text(b.left).len() as int;
            let l2 = decimal_text(b.top).len() as int;
            let l3 = decimal_text(b.right).len() as int;
            assert forall|i: int| 0 <= i < t.len() implies #[trigger] t[i] != ';' by {
                if i < l1 {
                    assert(t[i] == decimal_text(b.left)[i]);
                } else if l1 < i < l1 + 1 + l2 {
                    assert(t[i] == decimal_text(b.top)[i - l1 - 1]);
                } else if l1 + 1 + l2 < i < l1 + l2 + l3 + 2 {
                    assert(t[i] == decimal_text(b.right)[i - l1 - l2 - 2]);
                } else if i > l1 + l2 + l3 + 2 {
                    assert(t[i] == decimal_text(b.bottom)[i - l1 - l2 - l3 - 3]);
                }
            }
            lemma_no_semicolon(t);
        },
        PropertyModel::Image(p) => {
            lemma_trim_quotes_wrapped(p);
            lemma_no_separator_concat(seq!['"'], p);
            lemma_no_separator_concat(seq!['"'] + p, seq!['"']);
        },
        PropertyModel::Float(f) => {
            crate::number::lemma_decimal_round_trip(f);
            lemma_decimal_text_chars(f);
            lemma_no_semicolon(t);
        },
        PropertyModel::UInt(u) => {
            crate::number::lemma_u32_round_trip(u);
            lemma_digits_chars_plain(u as nat);
            lemma_no_semicolon(t);
        },
        PropertyModel::Baseline(a, b) => {
            crate::number::lemma_decimal_round_trip(a);
            crate::number::lemma_decimal_round_trip(b);
            lemma_decimal_text_chars(a);
            lemma_decimal_text_chars(b);
            lemma_pair_split(decimal_text(a), decimal_text(b));
            assert forall|i: int| 0 <= i < t.len() implies #[trigger] t[i] != ';' by {
                let n = decimal_text(a).len() as int;
                if i < n {
                    assert(t[i] == decimal_text(a)[i]);
                } else if i > n {
                    assert(t[i] == decimal_text(b)[i - n - 1]);
                }
            }
            lemma_no_semicolon(t);
        },
        PropertyModel::ScanRes(a, b) => {
            crate::number::lemma_u32_round_trip(a);
            crate::number::lemma_u32_round_trip(b);
            lemma_digits_chars_plain(a as nat);
            lemma_digits_chars_plain(b as nat);
            lemma_pair_split(digits_text(a as nat), digits_text(b as nat));
            assert forall|i: int| 0 <= i < t.len() implies #[trigger] t[i] != ';' by {
                let n = digits_text(a as nat).len() as int;
                if i < n {
                    assert(t[i] == digits_text(a as nat)[i]);
                } else if i > n {
                    assert(t[i] == digits_text(b as nat)[i - n - 1]);
                }
            }
            lemma_no_semicolon(t);
        },
    }
    lemma_no_semicolon(k + seq![' ']);
    lemma_no_separator_concat(k + seq![' '], t);
}

/// The entries of `m`, each written out as a clause.
pub open spec fn clause_texts(m: Seq<(Seq<char>, PropertyModel)>) -> Seq<Seq<char>> {
    Seq::new(m.len(), |i: int| clause_text(m[i]))
}

#[verifier::rlimit(80)]
proof fn lemma_title_split(m: Seq<(Seq<char>, PropertyModel)>)
    requires
        m.len() >= 1,
        forall|i: int| 0 <= i < m.len() ==> entry_round_trips(#[trigger] m[i]),
    ensures
        split_clauses(title_text(m)) == clause_texts(m),
    decreases m.len(),
{
    lemma_entry_round_trip(m.last());
    if m.len() == 1 {
        crate::text::lemma_clauses_single(clause_text(m[0]));
        assert(clause_texts(m) =~= seq![clause_text(m[0])]);
    } else {
        let m2 = m.drop_last();
        assert forall|i: int| 0 <= i < m2.len() implies entry_round_trips(#[trigger] m2[i]) by {
            assert(m2[i] == m[i]);
        }
        lemma_title_split(m2);
        crate::text::lemma_clauses_single(clause_text(m.last()));
        crate::text::lemma_clauses_concat(title_text(m2), clause_text(m.last()));
        assert(title_text(m) == title_text(m2) + seq![';', ' '] + clause_text(m.last()));
        assert(clause_texts(m) =~= clause_texts(m2) + seq![clause_text(m.last())]);
    }
}

#[verifier::rlimit(80)]
proof fn lemma_collect_round(m: Seq<(Seq<char>, PropertyModel)>)
    requires
        unique_keys(m),
        forall|i: int| 0 <= i < m.len() ==> entry_round_trips(#[trigger] m[i]),
    ensures
        collect(clause_texts(m)) == m,
    decreases m.len(),
{
    if m.len() == 0 {
        assert(clause_texts(m) =~= Seq::<Seq<char>>::empty());
        assert(m =~= Seq::<(Seq<char>, PropertyModel)>::empty());
    } else {
        let m2 = m.drop_last();
        assert forall|i: int| 0 <= i < m2.len() implies entry_round_trips(#[trigger] m2[i]) by {
            assert(m2[i] == m[i]);
        }
        assert(unique_keys(m2)) by {
            assert forall|a: int, b: int| 0 <= a < m2.len() && 0 <= b < m2.len() && a != b implies #[trigger] m2[a].0
                != #[trigger] m2[b].0 by {
                assert(m[a].0 != m[b].0);
            }
        }
        lemma_collect_round(m2);
        let cls = clause_texts(m);
        assert(cls.drop_last() =~= clause_texts(m2));
        assert(cls.last() == clause_text(m.last()));
        assert(entry_round_trips(m[m.len() - 1]));
        lemma_entry_round_trip(m.last());
        let k = m.last().0;
        assert(!has_key(m2, k)) by {
            if has_key(m2, k) {
                let i = choose|i: int| 0 <= i < m2.len() && #[trigger] m2[i].0 == k;
                assert(m[i].0 != m[m.len() - 1].0);
            }
        }
        assert(m2.push(m.last()) =~= m);
    }
}

/// Properties written out as an attribute text read back as themselves,
/// where every entry reads back from its clause, no name repeats and a
/// bounding box is among them.
#[verifier::rlimit(80)]
pub proof fn lemma_title_round_trip(m: Seq<(Seq<char>, PropertyModel)>)
    requires
        unique_keys(m),
        forall|i: int| 0 <= i < m.len() ==> entry_round_trips(#[trigger] m[i]),
        has_key(m, "bbox"@),
    ensures
        properties_of(title_text(m)) == Some(m),
{
    lemma_title_split(m);
    lemma_entry_round_trip(m.last());
    assert(clause_texts(m).last() == clause_text(m.last()));
    assert(clauses(title_text(m)) == clause_texts(m));
    lemma_collect_round(m);
}

proof fn lemma_collect_single(c: Seq<char>)
    ensures
        collect(seq![c]) == match clause_entry(c) {
            Some((k, v)) => put(Seq::empty(), k, v),
            None => Seq::empty(),
        },
{
    assert(seq![c].drop_last() =~= Seq::<Seq<char>>::empty());
    assert(seq![c].last() == c);
    assert(collect(Seq::<Seq<char>>::empty()) == Seq::<(Seq<char>, PropertyModel)>::empty());
}

proof fn lemma_bbox_text_plain(l: Seq<char>, t: Seq<char>, r: Seq<char>, b: Seq<char>)
    requires
        decimal_of(l) is Some,
        decimal_of(t) is Some,
        decimal_of(r) is Some,
        decimal_of(b) is Some,
    ensures
        forall|i: int|
            0 <= i < ("bbox"@ + seq![' '] + (l + seq![' '] + t + seq![' '] + r + seq![' '] + b)).len() ==> #[trigger] (
            "bbox"@ + seq![' '] + (l + seq![' '] + t + seq![' '] + r + seq![' '] + b))[i] != ';',
{
    let rest = l + seq![' '] + t + seq![' '] + r + seq![' '] + b;
    let text = "bbox"@ + seq![' '] + rest;
    lemma_key_plain("bbox"@);
    lemma_number_chars(l);
    lemma_number_chars(t);
    lemma_number_chars(r);
    lemma_number_chars(b);
    assert forall|i: int| 0 <= i < text.len() implies #[trigger] text[i] != ';' by {
        let k = "bbox"@.len() as int;
        if i < k {
            assert(text[i] == "bbox"@[i]);
        } else if i > k {
            let j = i - k - 1;
            assert(text[i] == rest[j]);
            let n1 = l.len() as int;
            let n2 = t.len() as int;
            let n3 = r.len() as int;
            if j < n1 {
                assert(rest[j] == l[j]);
            } else if n1 < j < n1 + 1 + n2 {
                assert(rest[j] == t[j - n1 - 1]);
            } else if n1 + 1 + n2 < j < n1 + n2 + n3 + 2 {
                assert(rest[j] == r[j - n1 - n2 - 2]);
            } else if j > n1 + n2 + n3 + 2 {
                assert(rest[j] == b[j - n1 - n2 - n3 - 3]);
            }
        }
    }
}

/// The attribute text `bbox L T R B`, of four well-formed numbers separated
/// by single spaces, reads as one bounding box with those four numbers, in
/// order, as left, top, right and bottom.
#[verifier::rlimit(80)]
pub proof fn lemma_bbox_text(l: Seq<char>, t: Seq<char>, r: Seq<char>, b: Seq<char>)
    requires
        decimal_of(l) is Some,
        decimal_of(t) is Some,
        decimal_of(r) is Some,
        decimal_of(b) is Some,
    ensures
        properties_of("bbox"@ + seq![' '] + (l + seq![' '] + t + seq![' '] + r + seq![' '] + b)) == Some(
            seq![
                ("bbox"@, PropertyModel::BBox(
                    BBox {
                        left: decimal_of(l)->Some_0,
                        top: decimal_of(t)->Some_0,
                        right: decimal_of(r)->Some_0,
                        bottom: decimal_of(b)->Some_0,
                    },
                )),
            ],
        ),
{
    let rest = l + seq![' '] + t + seq![' '] + r + seq![' '] + b;
    let text = "bbox"@ + seq![' '] + rest;
    let bx = BBox {
        left: decimal_of(l)->Some_0,
        top: decimal_of(t)->Some_0,
        right: decimal_of(r)->Some_0,
        bottom: decimal_of(b)->Some_0,
    };
    lemma_keys_distinct();
    lemma_key_plain("bbox"@);
    lemma_bbox_four_numbers(l, t, r, b);
    lemma_number_chars(l);
    lemma_number_chars(t);
    lemma_number_chars(r);
    lemma_number_chars(b);
    lemma_pair_split("bbox"@, rest);
    lemma_bbox_text_plain(l, t, r, b);
    lemma_no_semicolon(text);
    crate::text::lemma_clauses_single(text);
    assert(clauses(text) == seq![text]);
    let entry = ("bbox"@, PropertyModel::BBox(bx));
    assert(clause_entry(text) == Some(entry));
    lemma_collect_single(text);
    assert(put(Seq::empty(), "bbox"@, PropertyModel::BBox(bx)) =~= seq![entry]);
    assert(seq![entry][0].0 == "bbox"@);
}

} // verus!
