//! Crate identity from a Cargo manifest: the `[package] name` of a
//! manifest's text.
use vstd::prelude::*;

verus! {

/// A parsed TOML value, carried through as an opaque value.
#[verifier::external_type_specification]
#[verifier::external_body]
pub struct ExTomlValue(toml::Value);

/// A TOML value as the manifest lookup reads it: a string, a table of
/// keyed entries (in the table's own order, each key once), or any
/// other kind of value.
#[derive(Debug, PartialEq, Eq)]
pub enum TomlItem {
    /// A string value.
    Str(String),
    /// A table: its entries, key by key.
    Table(Vec<(String, TomlItem)>),
    /// An integer, float, boolean, datetime or array.
    Other,
}

/// The mathematical model of a [`TomlItem`].
pub enum TomlView {
    /// A string value.
    Str(Seq<char>),
    /// A table's entries.
    Table(Seq<(Seq<char>, TomlView)>),
    /// Any other kind of value.
    Other,
}

impl TomlItem {
    /// The item's model.
    pub open spec fn view_item(&self) -> TomlView
        decreases self,
    {
        match self {
            TomlItem::Str(s) => TomlView::Str(s@),
            TomlItem::Table(es) => TomlView::Table(
                Seq::new(
                    es@.len(),
                    |i: int|
                        {
                            if 0 <= i < es@.len() {
                                proof {
                                    assert(decreases_to!(self => es));
                                }
                                (es@[i].0@, es@[i].1.view_item())
                            } else {
                                (Seq::empty(), TomlView::Other)
                            }
                        },
                ),
            ),
            TomlItem::Other => TomlView::Other,
        }
    }
}

/// What `toml::from_str::<toml::Value>` reads a text as: `None` when the
/// text is not a TOML document, else the document's root table.
pub uninterp spec fn toml_document(contents: Seq<char>) -> Option<TomlView>;

/// The model of an optional item.
pub open spec fn opt_item_view(o: Option<TomlItem>) -> Option<TomlView> {
    match o {
        Some(i) => Some(i.view_item()),
        None => None,
    }
}

/// Parse a TOML document (`toml::from_str::<toml::Value>`) and convert
/// the value, variant by variant, into a [`TomlItem`]; `None` when the
/// text is not valid TOML. Claimed: the result is [`toml_document`] of
/// the text.
#[verifier::external_body]
fn parse_toml_document(contents: &str) -> (r: Option<TomlItem>)
    ensures
        opt_item_view(r) == toml_document(contents@),
{
    match toml::from_str::<toml::Value>(contents) {
        Ok(v) => Some(toml_item_of(&v)),
        Err(_) => None,
    }
}

/// The conversion half of [`parse_toml_document`]: a `toml::Value`
/// turned into a [`TomlItem`] one variant for one, the entries of a
/// table in the table's iteration order. What it yields is stated by
/// [`parse_toml_document`]'s contract, its one caller.
#[verifier::external_body]
fn toml_item_of(v: &toml::Value) -> TomlItem {
    match v {
        toml::Value::String(s) => TomlItem::Str(s.clone()),
        toml::Value::Table(t) => {
            let mut entries: Vec<(String, TomlItem)> = Vec::new();
            for (k, x) in t.iter() {
                entries.push((k.clone(), toml_item_of(x)));
            }
            TomlItem::Table(entries)
        },
        _ => TomlItem::Other,
    }
}

/// The value under `key` in a table model: the first entry with that
/// key; `None` when the model is not a table or has no such key.
pub open spec fn toml_lookup(v: TomlView, key: Seq<char>) -> Option<TomlView> {
    match v {
        TomlView::Table(es) => if exists|i: int| 0 <= i < es.len() && (#[trigger] es[i]).0 == key {
            let i = choose|i: int|
                0 <= i < es.len() && (#[trigger] es[i]).0 == key && forall|j: int|
                    0 <= j < i ==> (#[trigger] es[j]).0 != key;
            Some(es[i].1)
        } else {
            None
        },
        _ => None,
    }
}

/// The `[package] name` of a parsed manifest: the string under `name`
/// in the table under `package`; `None` when either is missing or the
/// name is not a string.
pub open spec fn manifest_name_spec(doc: Option<TomlView>) -> Option<Seq<char>> {
    match doc {
        Some(d) => match toml_lookup(d, "package"@) {
            Some(p) => match toml_lookup(p, "name"@) {
                Some(TomlView::Str(s)) => Some(s),
                _ => None,
            },
            None => None,
        },
        None => None,
    }
}

/// The value under `key` in a table item, found by a scan for the first
/// entry with that key; `None` when the item is not a table or has no
/// such key.
pub fn toml_get<'a>(v: &'a TomlItem, key: &str) -> (r: Option<&'a TomlItem>)
    ensures
        opt_ref_view(r) == toml_lookup(v.view_item(), key@),
{
    match v {
        TomlItem::Table(es) => {
            let ghost vv = v.view_item();
            let mut i: usize = 0;
            while i < es.len()
                invariant
                    i <= es@.len(),
                    vv == v.view_item(),
                    *v == TomlItem::Table(*es),
                    forall|j: int| 0 <= j < i ==> (#[trigger] es@[j]).0@ != key@,
                decreases es@.len() - i,
            {
                if str_eq(es[i].0.as_str(), key) {
                    proof {
                        let tes = vv->Table_0;
                        assert(tes[i as int].0 == key@);
                        assert(forall|j: int| 0 <= j < i ==> (#[trigger] tes[j]).0 != key@) by {
                            assert forall|j: int| 0 <= j < i implies (#[trigger] tes[j]).0
                                != key@ by {
                                assert(tes[j].0 == es@[j].0@);
                            }
                        }
                        let c = choose|c: int|
                            0 <= c < tes.len() && (#[trigger] tes[c]).0 == key@ && forall|j: int|
                                0 <= j < c ==> (#[trigger] tes[j]).0 != key@;
                        if c < i {
                            assert(tes[c].0 != key@);
                        }
                        if c > i {
                            assert(tes[i as int].0 == key@);
                        }
                    }
                    return Some(&es[i].1);
                }
                i = i + 1;
            }
            proof {
                let tes = vv->Table_0;
                assert forall|j: int| 0 <= j < tes.len() implies (#[trigger] tes[j]).0 != key@ by {
                    assert(tes[j].0 == es@[j].0@);
                }
            }
            None
        },
        _ => None,
    }
}

/// The model of an optional borrowed item.
pub open spec fn opt_ref_view(o: Option<&TomlItem>) -> Option<TomlView> {
    match o {
        Some(i) => Some(i.view_item()),
        None => None,
    }
}

/// Character-wise equality of two string slices.
fn str_eq(a: &str, b: &str) -> (r: bool)
    ensures
        r <==> a@ == b@,
{
    let n = a.unicode_len();
    if n != b.unicode_len() {
        return false;
    }
    let mut i: usize = 0;
    while i < n
        invariant
            n == a@.len(),
            n == b@.len(),
            i <= n,
            forall|j: int| 0 <= j < i ==> a@[j] == b@[j],
        decreases n - i,
    {
        if a.get_char(i) != b.get_char(i) {
            return false;
        }
        i = i + 1;
    }
    assert(a@ =~= b@);
    true
}


// ---- the fallback crate name: the top directory under an analysis root ----

/// The texts of a list of path components.
pub open spec fn components_view(c: Seq<String>) -> Seq<Seq<char>> {
    c.map_values(|s: String| s@)
}

/// The component lists of several paths.
pub open spec fn roots_view(r: Seq<Vec<String>>) -> Seq<Seq<Seq<char>>> {
    r.map_values(|v: Vec<String>| components_view(v@))
}

/// `p` is a leading run of the components `s`.
pub open spec fn components_prefix(p: Seq<Seq<char>>, s: Seq<Seq<char>>) -> bool {
    p.len() <= s.len() && s.take(p.len() as int) == p
}

/// The first directory of `file` under the first of `roots` that
/// contains it: `None` when no root contains it, or when it sits directly
/// in that root (no directory between the root and the file's name).
pub open spec fn top_segment_spec(file: Seq<Seq<char>>, roots: Seq<Seq<Seq<char>>>) -> Option<
    Seq<char>,
>
    decreases roots.len(),
{
    if roots.len() == 0 {
        None
    } else if components_prefix(roots[0], file) {
        if file.len() >= roots[0].len() + 2 {
            Some(file[roots[0].len() as int])
        } else {
            None
        }
    } else {
        top_segment_spec(file, roots.drop_first())
    }
}

/// The model of an optional text.
pub open spec fn opt_text_view(o: Option<String>) -> Option<Seq<char>> {
    match o {
        Some(s) => Some(s@),
        None => None,
    }
}

/// Whether the components `p` lead the components `s`.
fn starts_with_components(p: &Vec<String>, s: &[String]) -> (r: bool)
    ensures
        r == components_prefix(components_view(p@), components_view(s@)),
{
    if p.len() > s.len() {
        return false;
    }
    let mut k: usize = 0;
    while k < p.len()
        invariant
            k <= p@.len() <= s@.len(),
            forall|j: int| 0 <= j < k ==> (#[trigger] p@[j])@ == s@[j]@,
        decreases p@.len() - k,
    {
        if !str_eq(p[k].as_str(), s[k].as_str()) {
            assert(components_view(s@).take(p@.len() as int)[k as int] != components_view(p@)[k as int]);
            return false;
        }
        k = k + 1;
    }
    assert(components_view(s@).take(p@.len() as int) =~= components_view(p@));
    true
}

/// The fallback crate name of a file, given as its path components: the
/// first directory below the first analysis root (also given as
/// components) that contains the file; `None` when no root contains it or
/// the file sits directly in that root.
pub fn top_segment_under_roots(file: &[String], roots: &[Vec<String>]) -> (r: Option<String>)
    ensures
        opt_text_view(r) == top_segment_spec(components_view(file@), roots_view(roots@)),
{
    let ghost fv = components_view(file@);
    let ghost rv = roots_view(roots@);
    let mut i: usize = 0;
    assert(rv.skip(0) =~= rv);
    while i < roots.len()
        invariant
            i <= roots@.len(),
            fv == components_view(file@),
            rv == roots_view(roots@),
            top_segment_spec(fv, rv) == top_segment_spec(fv, rv.skip(i as int)),
        decreases roots@.len() - i,
    {
        let root = &roots[i];
        assert(rv.skip(i as int)[0] == components_view(root@));
        assert(rv.skip(i as int).drop_first() =~= rv.skip(i + 1));
        if starts_with_components(root, file) {
            if file.len() - root.len() >= 2 {
                return Some(file[root.len()].clone());
            }
            return None;
        }
        i = i + 1;
    }
    None
}

/// The `[package] name` of a parsed manifest: the string under `name` in
/// the table under `package`; `None` when either is missing or the name
/// is not a string.
pub fn manifest_name(doc: &TomlItem) -> (r: Option<String>)
    ensures
        opt_text_view(r) == manifest_name_spec(Some(doc.view_item())),
{
    let package = match toml_get(doc, "package") {
        Some(p) => p,
        None => return None,
    };
    let name = match toml_get(package, "name") {
        Some(n) => n,
        None => return None,
    };
    match name {
        TomlItem::Str(s) => Some(s.clone()),
        _ => None,
    }
}

/// The `[package] name` of a Cargo manifest's text: `None` when the text
/// does not parse, has no `package` table, no `name` in it, or a `name`
/// that is not a string.
pub fn package_name_from_manifest(contents: &str) -> (r: Option<String>)
    ensures
        opt_text_view(r) == manifest_name_spec(toml_document(contents@)),
{
    match parse_toml_document(contents) {
        Some(doc) => manifest_name(&doc),
        None => None,
    }
}

} // verus!
