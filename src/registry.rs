//! What the registry layer decides on its own: the union of the version
//! lists that several registries return, and the addresses it requests.
use vstd::prelude::*;
use crate::coordinates::Coordinate;
use crate::lockfile::texts;
use crate::repository::{ArtifactKind, extension_of};
use crate::text::{replace_char, replace_char_text, same_text};

verus! {

/// A search hit of a Maven-style search service.
#[derive(Debug)]
pub struct ArtifactDoc {
    pub g: String,
    pub a: String,
    pub v: String,
    pub p: String,
    pub timestamp: i64,
}

/// `s` percent-encoded for use in a URL.
pub uninterp spec fn url_encoded(s: Seq<char>) -> Seq<char>;

pub open spec fn is_unreserved(c: char) -> bool {
    ('0' <= c && c <= '9') || ('A' <= c && c <= 'Z') || ('a' <= c && c <= 'z') || c == '-' || c
        == '.' || c == '_' || c == '~'
}

/// Relies on `urlencoding::encode`: percent-encodes every byte but ASCII
/// letters, digits and `-`, `.`, `_`, `~`; text made only of those comes back
/// unchanged.
#[verifier::external_body]
fn url_encode(s: &str) -> (r: String)
    ensures
        r@ == url_encoded(s@),
        (forall|i: int| 0 <= i < s@.len() ==> is_unreserved(#[trigger] s@[i])) ==> r@ == s@,
{
    urlencoding::encode(s).into_owned()
}

/// `v` with repeated texts dropped, first occurrences kept in order.
pub open spec fn dedup_texts(v: Seq<Seq<char>>) -> Seq<Seq<char>>
    decreases v.len(),
{
    if v.len() == 0 {
        v
    } else {
        let prev = dedup_texts(v.drop_last());
        if prev.contains(v.last()) {
            prev
        } else {
            prev.push(v.last())
        }
    }
}

/// All lists one after the other.
pub open spec fn concat_lists(lists: Seq<Seq<Seq<char>>>) -> Seq<Seq<char>>
    decreases lists.len(),
{
    if lists.len() == 0 {
        Seq::<Seq<char>>::empty()
    } else {
        concat_lists(lists.drop_last()) + lists.last()
    }
}

pub open spec fn list_texts(lists: Seq<Vec<String>>) -> Seq<Seq<Seq<char>>> {
    lists.map_values(|l: Vec<String>| texts(l@))
}

fn holds(v: &Vec<String>, s: &str) -> (r: bool)
    ensures
        r == texts(v@).contains(s@),
{
    let mut i: usize = 0;
    while i < v.len()
        invariant
            i <= v@.len(),
            forall|j: int| 0 <= j < i ==> (#[trigger] v@[j])@ != s@,
        decreases v@.len() - i,
    {
        if same_text(v[i].as_str(), s) {
            assert(texts(v@)[i as int] == s@);
            return true;
        }
        i = i + 1;
    }
    proof {
        if texts(v@).contains(s@) {
            let j = choose|j: int| 0 <= j < texts(v@).len() && #[trigger] texts(v@)[j] == s@;
            assert(v@[j]@ == s@);
        }
    }
    false
}

/// The versions that several registries returned, as one list: each
/// version once, in the order of first appearance.
pub fn merge_version_lists(lists: &Vec<Vec<String>>) -> (r: Vec<String>)
    ensures
        texts(r@) == dedup_texts(concat_lists(list_texts(lists@))),
{
    let mut out: Vec<String> = Vec::new();
    let mut i: usize = 0;
    while i < lists.len()
        invariant
            i <= lists@.len(),
            texts(out@) == dedup_texts(concat_lists(list_texts(lists@.take(i as int)))),
        decreases lists@.len() - i,
    {
        let list = &lists[i];
        let ghost base = concat_lists(list_texts(lists@.take(i as int)));
        let mut j: usize = 0;
        while j < list.len()
            invariant
                j <= list@.len(),
                texts(out@) == dedup_texts(base + texts(list@).take(j as int)),
            decreases list@.len() - j,
        {
            let ghost prev = base + texts(list@).take(j as int);
            assert(base + texts(list@).take(j + 1) =~= prev.push(list@[j as int]@));
            assert((prev.push(list@[j as int]@)).drop_last() =~= prev);
            if !holds(&out, list[j].as_str()) {
                let s = list[j].clone();
                out.push(s);
                assert(texts(out@) =~= dedup_texts(prev).push(list@[j as int]@));
            }
            j = j + 1;
        }
        proof {
            assert(texts(list@).take(list@.len() as int) =~= texts(list@));
            assert(lists@.take(i + 1).drop_last() =~= lists@.take(i as int));
            assert(list_texts(lists@.take(i + 1)) =~= list_texts(lists@.take(i as int)).push(
                texts(list@),
            ));
            assert(list_texts(lists@.take(i + 1)).drop_last() =~= list_texts(lists@.take(i as int)));
        }
        i = i + 1;
    }
    assert(lists@.take(lists@.len() as int) =~= lists@);
    out
}

pub open spec fn search_prefix() -> Seq<char> {
    "https://search.maven.org/solrsearch/select?q=g:"@
}

pub open spec fn search_middle() -> Seq<char> {
    "+AND+a:"@
}

pub open spec fn search_suffix() -> Seq<char> {
    "&core=gav&rows=20&wt=json"@
}

pub open spec fn content_prefix() -> Seq<char> {
    "https://search.maven.org/remotecontent?filepath="@
}

/// The search request for the versions of a coordinate.
pub fn search_url(coord: &Coordinate) -> (r: String)
    ensures
        r@ == search_prefix() + url_encoded(coord.namespace@) + search_middle() + url_encoded(
            coord.name@,
        ) + search_suffix(),
{
    let mut out = String::from_str("https://search.maven.org/solrsearch/select?q=g:");
    out.append(url_encode(coord.namespace.as_str()).as_str());
    out.append("+AND+a:");
    out.append(url_encode(coord.name.as_str()).as_str());
    out.append("&core=gav&rows=20&wt=json");
    out
}

/// `<namespace-as-path>/<name>/<version>/<name>-<version>.<ext>`.
/// The namespace and the name are URL-encoded; the dots of the encoded
/// namespace become `/`.
pub open spec fn remote_path_of(c: crate::coordinates::CoordModel, version: Seq<char>, kind: ArtifactKind) -> Seq<char> {
    replace_char(url_encoded(c.namespace), '.', seq!['/']) + seq!['/'] + url_encoded(c.name)
        + seq!['/'] + version + seq!['/'] + url_encoded(c.name) + seq!['-'] + version + seq!['.']
        + extension_of(kind)
}

/// The download request for one artifact.
pub fn content_url(coord: &Coordinate, version: &str, kind: ArtifactKind) -> (r: String)
    ensures
        r@ == content_prefix() + remote_path_of(coord@, version@, kind),
{
    proof {
        reveal_strlit("/");
        reveal_strlit("-");
        reveal_strlit(".");
        reveal_strlit("jar");
        reveal_strlit("pom");
    }
    assert("/"@ =~= seq!['/']);
    let name = url_encode(coord.name.as_str());
    let mut out = String::from_str("https://search.maven.org/remotecontent?filepath=");
    out.append(replace_char_text(url_encode(coord.namespace.as_str()).as_str(), '.', "/").as_str());
    out.append("/");
    out.append(name.as_str());
    out.append("/");
    out.append(version);
    out.append("/");
    out.append(name.as_str());
    out.append("-");
    out.append(version);
    out.append(".");
    match kind {
        ArtifactKind::Binary => out.append("jar"),
        ArtifactKind::Metadata => out.append("pom"),
    }
    assert(out@ =~= content_prefix() + remote_path_of(coord@, version@, kind));
    out
}

} // verus!
