//! Artifact coordinates `namespace:name[:version]`.
use vstd::prelude::*;
use crate::text::{
    contains_char, lemma_split_concat, lemma_split_without_sep, replace_char,
    replace_char_text, split_char, split_on,
};

verus! {

/// Why a coordinate string was refused.
#[derive(Debug, Clone, Copy, PartialEq, Eq, Structural)]
pub enum CoordinateError {
    /// Not two or three `:`-separated fields.
    InvalidFormat,
}

/// The mathematical value of a [`Coordinate`].
pub struct CoordModel {
    pub namespace: Seq<char>,
    pub name: Seq<char>,
    pub version: Option<Seq<char>>,
}

/// An artifact family `namespace:name`, optionally with a version.
#[derive(Debug)]
pub struct Coordinate {
    pub namespace: String,
    pub name: String,
    pub version: Option<String>,
}

impl View for Coordinate {
    type V = CoordModel;

    open spec fn view(&self) -> CoordModel {
        CoordModel {
            namespace: self.namespace@,
            name: self.name@,
            version: match self.version {
                Some(v) => Some(v@),
                None => None,
            },
        }
    }
}

/// What parsing a coordinate string yields.
pub open spec fn parse_coord(s: Seq<char>) -> Result<CoordModel, CoordinateError> {
    let parts = split_on(s, ':');
    if parts.len() == 2 {
        Ok(CoordModel { namespace: parts[0], name: parts[1], version: None })
    } else if parts.len() == 3 {
        Ok(CoordModel { namespace: parts[0], name: parts[1], version: Some(parts[2]) })
    } else {
        Err(CoordinateError::InvalidFormat)
    }
}

/// The identity of a coordinate, `namespace:name`.
pub open spec fn coord_key(c: CoordModel) -> Seq<char> {
    c.namespace + seq![':'] + c.name
}

/// The display form, colon-joined, with the version when there is one.
pub open spec fn display_coord(c: CoordModel) -> Seq<char> {
    coord_key(c) + match c.version {
        Some(v) => seq![':'] + v,
        None => Seq::<char>::empty(),
    }
}

/// The directory of a coordinate: dots of the namespace become `/`, then `/name`.
pub open spec fn coord_path(c: CoordModel) -> Seq<char> {
    replace_char(c.namespace, '.', seq!['/']) + seq!['/'] + c.name
}

/// The same coordinate without its version.
pub open spec fn unversioned(c: CoordModel) -> CoordModel {
    CoordModel { namespace: c.namespace, name: c.name, version: None }
}

impl Coordinate {
    /// Parses `namespace:name` or `namespace:name:version`.
    pub fn parse(coord: &str) -> (r: Result<Coordinate, CoordinateError>)
        ensures
            match r {
                Ok(c) => parse_coord(coord@) == Ok::<CoordModel, CoordinateError>(c@),
                Err(e) => parse_coord(coord@) == Err::<CoordModel, CoordinateError>(e),
            },
    {
        let parts = split_char(coord, ':');
        if parts.len() == 2 {
            Ok(
                Coordinate {
                    namespace: String::from_str(parts[0]),
                    name: String::from_str(parts[1]),
                    version: None,
                },
            )
        } else if parts.len() == 3 {
            Ok(
                Coordinate {
                    namespace: String::from_str(parts[0]),
                    name: String::from_str(parts[1]),
                    version: Some(String::from_str(parts[2])),
                },
            )
        } else {
            Err(CoordinateError::InvalidFormat)
        }
    }

    /// The directory path of this coordinate's artifacts, relative to a store root.
    pub fn to_path(&self) -> (r: String)
        ensures
            r@ == coord_path(self@),
    {
        proof {
            reveal_strlit("/");
        }
        assert("/"@ =~= seq!['/']);
        let mut out = replace_char_text(self.namespace.as_str(), '.', "/");
        out.append("/");
        out.append(self.name.as_str());
        assert(out@ =~= coord_path(self@));
        out
    }

    /// `namespace:name`, the identity under which a lockfile records the coordinate.
    pub fn key(&self) -> (r: String)
        ensures
            r@ == coord_key(self@),
    {
        proof {
            reveal_strlit(":");
        }
        let mut out = self.namespace.clone();
        out.append(":");
        out.append(self.name.as_str());
        out
    }

    /// The colon-joined display form.
    pub fn to_string(&self) -> (r: String)
        ensures
            r@ == display_coord(self@),
    {
        proof {
            reveal_strlit(":");
        }
        let mut out = self.key();
        match &self.version {
            Some(v) => {
                out.append(":");
                out.append(v.as_str());
            },
            None => {},
        }
        assert(out@ =~= display_coord(self@));
        out
    }

    /// This coordinate without its version.
    pub fn unversioned(&self) -> (r: Coordinate)
        ensures
            r@ == unversioned(self@),
    {
        Coordinate { namespace: self.namespace.clone(), name: self.name.clone(), version: None }
    }

    /// Whether two coordinates agree on all three fields.
    pub fn same_as(&self, other: &Coordinate) -> (r: bool)
        ensures
            r == (self@ == other@),
    {
        if !(self.namespace == other.namespace) || !(self.name == other.name) {
            return false;
        }
        match (&self.version, &other.version) {
            (None, None) => true,
            (Some(a), Some(b)) => *a == *b,
            _ => false,
        }
    }
}

impl Clone for Coordinate {
    fn clone(&self) -> (r: Self)
        ensures
            r@ == self@,
    {
        let version = match &self.version {
            Some(v) => Some(v.clone()),
            None => None,
        };
        Coordinate { namespace: self.namespace.clone(), name: self.name.clone(), version }
    }
}

impl PartialEq for Coordinate {
    fn eq(&self, other: &Coordinate) -> (r: bool) {
        self.same_as(other)
    }
}

impl vstd::std_specs::cmp::PartialEqSpecImpl for Coordinate {
    open spec fn obeys_eq_spec() -> bool {
        true
    }

    open spec fn eq_spec(&self, other: &Coordinate) -> bool {
        self@ == other@
    }
}

/// Parsing the display form of a versioned coordinate whose fields hold no
/// `:` gives the coordinate back.
pub proof fn lemma_coordinate_round_trip(c: CoordModel)
    requires
        c.version is Some,
        !contains_char(c.namespace, ':'),
        !contains_char(c.name, ':'),
        !contains_char(c.version->Some_0, ':'),
    ensures
        parse_coord(display_coord(c)) == Ok::<CoordModel, CoordinateError>(c),
{
    let v = c.version->Some_0;
    lemma_split_without_sep(c.namespace, ':');
    lemma_split_without_sep(c.name, ':');
    lemma_split_without_sep(v, ':');
    lemma_split_concat(c.name, ':', v);
    lemma_split_concat(c.namespace, ':', c.name.push(':') + v);
    assert(display_coord(c) =~= c.namespace.push(':') + (c.name.push(':') + v));
    assert(seq![c.namespace] + (seq![c.name] + seq![v]) =~= seq![c.namespace, c.name, v]);
}

} // verus!
