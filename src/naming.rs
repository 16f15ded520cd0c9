//! Names derived from a tagged-union type: the namespace that holds its
//! markers, the path of a marker, and the path of the crate that hosts it.
use convert_case::{Case, Casing};
use vstd::prelude::*;

verus! {

/// Snake case of an identifier, as convert_case computes it.
pub uninterp spec fn snake_case_of(s: Seq<char>) -> Seq<char>;

/// Relies on convert_case's `Casing::to_case` with `Case::Snake`: the words of
/// the identifier, lower-cased and joined by underscores. The result depends on
/// the text alone.
#[verifier::external_body]
fn to_snake_case(s: &str) -> (r: String)
    ensures
        r@ == snake_case_of(s@),
{
    s.to_case(Case::Snake)
}

/// The namespace that holds the markers of the tagged union named `union_name`.
pub open spec fn namespace_of(union_name: Seq<char>) -> Seq<char> {
    snake_case_of(union_name) + "_filters"@
}

/// The namespace for the markers of a tagged union whose name in snake case
/// is `snake`: that name followed by `_filters`.
pub fn filters_namespace(snake: String) -> (r: String)
    ensures
        r@ == snake@ + "_filters"@,
{
    let mut r = snake;
    r.append("_filters");
    r
}

/// The namespace for the markers of the tagged union named `union_name`: its
/// name in snake case, followed by `_filters`.
pub fn get_mod_ident(union_name: &str) -> (r: String)
    ensures
        r@ == namespace_of(union_name@),
{
    filters_namespace(to_snake_case(union_name))
}

/// The text of each string of a sequence.
pub open spec fn texts(v: Seq<String>) -> Seq<Seq<char>> {
    v.map_values(|s: String| s@)
}

/// Why a path does not name a variant of a tagged union.
#[derive(Clone, Copy, PartialEq, Eq, Debug)]
pub enum PathError {
    /// The path has fewer than two segments, so it cannot be `Union::Variant`.
    NotAVariantPath,
}

impl PathError {
    /// The message reported for this error.
    pub fn message(&self) -> (r: &'static str)
        ensures
            r@ == "expected a valid enum expression (i.e. `Foo::Bar`)"@,
    {
        match self {
            PathError::NotAVariantPath => "expected a valid enum expression (i.e. `Foo::Bar`)",
        }
    }
}

/// The path of the marker for `prefix::Union::Variant`, where the namespace of
/// `Union` is `namespace`: the prefix, then `namespace`, then `Variant`.
pub open spec fn marker_path_in(path: Seq<Seq<char>>, namespace: Seq<char>) -> Seq<Seq<char>>
    recommends
        path.len() >= 2,
{
    path.subrange(0, path.len() - 2) + seq![namespace, path[path.len() - 1]]
}

/// The path of the marker for `prefix::Union::Variant`: the prefix, then the
/// namespace of `Union`, then `Variant`.
pub open spec fn marker_path_of(path: Seq<Seq<char>>) -> Seq<Seq<char>>
    recommends
        path.len() >= 2,
{
    marker_path_in(path, namespace_of(path[path.len() - 2]))
}

/// Resolves the path of a variant, `prefix::Union::Variant`, given by its
/// segments, to the path of that variant's marker, where the namespace of
/// `Union` is `namespace`.
pub fn marker_path_with(path: &Vec<String>, namespace: String) -> (r: Result<Vec<String>, PathError>)
    ensures
        path@.len() < 2 ==> r == Err::<Vec<String>, PathError>(PathError::NotAVariantPath),
        path@.len() >= 2 ==> r is Ok && texts(r->Ok_0@) == marker_path_in(texts(path@), namespace@),
{
    let n = path.len();
    if n < 2 {
        return Err(PathError::NotAVariantPath);
    }
    let mut out: Vec<String> = Vec::new();
    let mut i: usize = 0;
    while i < n - 2
        invariant
            n == path@.len(),
            n >= 2,
            i <= n - 2,
            texts(out@) == texts(path@).subrange(0, i as int),
        decreases n - 2 - i,
    {
        let seg = path[i].clone();
        let ghost before = out@;
        out.push(seg);
        assert(texts(before).len() == i);
        assert(texts(out@) =~= texts(path@).subrange(0, i + 1)) by {
            assert(texts(out@)[i as int] == seg@);
        }
        i = i + 1;
    }
    let ghost ns = namespace@;
    out.push(namespace);
    out.push(path[n - 1].clone());
    assert(texts(out@) =~= marker_path_in(texts(path@), ns));
    Ok(out)
}

/// Resolves the path of a variant, `prefix::Union::Variant`, given by its
/// segments, to the path of that variant's marker. The fields of the variant,
/// if any, play no part: every variant is named as a unit variant.
#[allow(non_snake_case)]
pub fn Enum(path: &Vec<String>) -> (r: Result<Vec<String>, PathError>)
    ensures
        path@.len() < 2 ==> r == Err::<Vec<String>, PathError>(PathError::NotAVariantPath),
        path@.len() >= 2 ==> r is Ok && texts(r->Ok_0@) == marker_path_of(texts(path@)),
{
    let n = path.len();
    if n < 2 {
        return Err(PathError::NotAVariantPath);
    }
    let namespace = get_mod_ident(path[n - 2].as_str());
    marker_path_with(path, namespace)
}

/// How the crate that hosts the markers is reached from the derived code.
#[derive(PartialEq, Eq, Debug)]
pub enum CrateRef {
    /// The derived code lives in that crate itself.
    Itself,
    /// The crate is a dependency, under this name.
    Named(String),
}

/// The path by which derived code names the host crate.
pub open spec fn crate_path_of(c: CrateRef) -> Seq<char> {
    match c {
        CrateRef::Itself => "crate"@,
        CrateRef::Named(name) => name@,
    }
}

/// The path by which derived code names the host crate: `crate` inside it,
/// its name from elsewhere.
pub fn crate_path(c: &CrateRef) -> (r: String)
    ensures
        r@ == crate_path_of(*c),
{
    match c {
        CrateRef::Itself => String::from_str("crate"),
        CrateRef::Named(name) => name.clone(),
    }
}

} // verus!
