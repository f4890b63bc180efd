//! Graph nodes: the kind of a Python symbol, and the symbol itself.

use vstd::prelude::*;

use crate::intern::{Interner, SymId};
use crate::text::{chars_to_string, push_all, str_to_chars};

verus! {

/// The flavor (kind) of a graph node.
#[derive(Debug, Clone, Copy, PartialEq, Eq, Structural, Hash, PartialOrd, Ord)]
pub enum Flavor {
    Unspecified,
    Unknown,
    Namespace,
    Attribute,
    Name,
    ImportedItem,
    Module,
    Class,
    Function,
    Method,
    StaticMethod,
    ClassMethod,
}

/// The rank of a flavor: more specific flavors rank higher.
pub open spec fn flavor_rank(f: Flavor) -> nat {
    match f {
        Flavor::Unspecified => 0,
        Flavor::Unknown => 1,
        Flavor::Namespace => 2,
        Flavor::Attribute => 3,
        Flavor::Name => 4,
        Flavor::ImportedItem => 5,
        Flavor::Module => 6,
        Flavor::Class => 7,
        Flavor::Function => 8,
        Flavor::Method => 9,
        Flavor::StaticMethod => 10,
        Flavor::ClassMethod => 11,
    }
}

/// The more specific of a node's flavor and a requested one (the node's
/// own on a tie).
pub open spec fn upgraded_flavor(current: Flavor, requested: Flavor) -> Flavor {
    if flavor_rank(requested) > flavor_rank(current) {
        requested
    } else {
        current
    }
}

/// The lower-case word that names a flavor.
pub open spec fn flavor_text(f: Flavor) -> Seq<char> {
    match f {
        Flavor::Unspecified => seq!['u', 'n', 's', 'p', 'e', 'c', 'i', 'f', 'i', 'e', 'd'],
        Flavor::Unknown => seq!['u', 'n', 'k', 'n', 'o', 'w', 'n'],
        Flavor::Namespace => seq!['n', 'a', 'm', 'e', 's', 'p', 'a', 'c', 'e'],
        Flavor::Attribute => seq!['a', 't', 't', 'r', 'i', 'b', 'u', 't', 'e'],
        Flavor::Name => seq!['n', 'a', 'm', 'e'],
        Flavor::ImportedItem => seq!['i', 'm', 'p', 'o', 'r', 't', 'e', 'd', 'i', 't', 'e', 'm'],
        Flavor::Module => seq!['m', 'o', 'd', 'u', 'l', 'e'],
        Flavor::Class => seq!['c', 'l', 'a', 's', 's'],
        Flavor::Function => seq!['f', 'u', 'n', 'c', 't', 'i', 'o', 'n'],
        Flavor::Method => seq!['m', 'e', 't', 'h', 'o', 'd'],
        Flavor::StaticMethod => seq!['s', 't', 'a', 't', 'i', 'c', 'm', 'e', 't', 'h', 'o', 'd'],
        Flavor::ClassMethod => seq!['c', 'l', 'a', 's', 's', 'm', 'e', 't', 'h', 'o', 'd'],
    }
}

impl Flavor {
    /// More specific flavors should overwrite less specific ones.
    pub fn specificity(self) -> (r: u8)
        ensures
            r == flavor_rank(self),
    {
        match self {
            Flavor::Unspecified => 0,
            Flavor::Unknown => 1,
            Flavor::Namespace => 2,
            Flavor::Attribute => 3,
            Flavor::Name => 4,
            Flavor::ImportedItem => 5,
            Flavor::Module => 6,
            Flavor::Class => 7,
            Flavor::Function => 8,
            Flavor::Method => 9,
            Flavor::StaticMethod => 10,
            Flavor::ClassMethod => 11,
        }
    }

    /// The flavor's display word, such as `module` or `staticmethod`.
    pub fn to_text(self) -> (r: String)
        ensures
            r@ == flavor_text(self),
    {
        let v: Vec<char> = match self {
            Flavor::Unspecified => vec!['u', 'n', 's', 'p', 'e', 'c', 'i', 'f', 'i', 'e', 'd'],
            Flavor::Unknown => vec!['u', 'n', 'k', 'n', 'o', 'w', 'n'],
            Flavor::Namespace => vec!['n', 'a', 'm', 'e', 's', 'p', 'a', 'c', 'e'],
            Flavor::Attribute => vec!['a', 't', 't', 'r', 'i', 'b', 'u', 't', 'e'],
            Flavor::Name => vec!['n', 'a', 'm', 'e'],
            Flavor::ImportedItem => vec!['i', 'm', 'p', 'o', 'r', 't', 'e', 'd', 'i', 't', 'e', 'm'],
            Flavor::Module => vec!['m', 'o', 'd', 'u', 'l', 'e'],
            Flavor::Class => vec!['c', 'l', 'a', 's', 's'],
            Flavor::Function => vec!['f', 'u', 'n', 'c', 't', 'i', 'o', 'n'],
            Flavor::Method => vec!['m', 'e', 't', 'h', 'o', 'd'],
            Flavor::StaticMethod => vec!['s', 't', 'a', 't', 'i', 'c', 'm', 'e', 't', 'h', 'o', 'd'],
            Flavor::ClassMethod => vec!['c', 'l', 'a', 's', 's', 'm', 'e', 't', 'h', 'o', 'd'],
        };
        proof {
            assert(v@ =~= flavor_text(self));
        }
        chars_to_string(v.as_slice())
    }
}

/// A node in the call graph.
#[derive(Debug, Clone)]
pub struct Node {
    /// The namespace (dotted path) this node belongs to, or None for wildcard.
    pub namespace: Option<SymId>,
    /// The short name of this node.
    pub name: SymId,
    /// The flavor of this node.
    pub flavor: Flavor,
    /// The filename where this node is defined.
    pub filename: Option<String>,
    /// The line number where this node is defined.
    pub line: Option<usize>,
}

/// The fully qualified name built from a namespace and a short name:
/// `namespace.name`, or just `name` when the namespace is absent or empty.
pub open spec fn qualified(ns: Option<Seq<char>>, name: Seq<char>) -> Seq<char> {
    match ns {
        Some(n) => if n.len() > 0 {
            n + seq!['.'] + name
        } else {
            name
        },
        None => name,
    }
}

impl Node {
    /// Whether the node's symbols are interned in `interner`.
    pub open spec fn ids_in(&self, interner: &Interner) -> bool {
        &&& interner.has_id(self.name)
        &&& (self.namespace matches Some(ns) ==> interner.has_id(ns))
    }

    /// The node's namespace string, if it has one.
    pub open spec fn ns_text(&self, interner: &Interner) -> Option<Seq<char>> {
        match self.namespace {
            Some(ns) => Some(interner.str_of(ns)),
            None => None,
        }
    }

    /// The node's fully qualified name.
    pub open spec fn full_name(&self, interner: &Interner) -> Seq<char> {
        qualified(self.ns_text(interner), interner.str_of(self.name))
    }

    pub fn new(namespace: Option<SymId>, name: SymId, flavor: Flavor) -> (r: Self)
        ensures
            r.namespace == namespace,
            r.name == name,
            r.flavor == flavor,
            r.filename.is_none(),
            r.line.is_none(),
    {
        Self { namespace, name, flavor, filename: None, line: None }
    }

    pub fn with_location(self, filename: &str, line: usize) -> (r: Self)
        ensures
            r.namespace == self.namespace,
            r.name == self.name,
            r.flavor == self.flavor,
            r.filename matches Some(f) && f@ == filename@,
            r.line == Some(line),
    {
        let mut n = self;
        n.filename = Some(filename.to_owned());
        n.line = Some(line);
        n
    }

    /// Get the fully qualified name: "namespace.name" or just "name" if no namespace.
    pub fn get_name(&self, interner: &Interner) -> (r: String)
        requires
            self.ids_in(interner),
        ensures
            r@ == self.full_name(interner),
    {
        let name = str_to_chars(interner.resolve(self.name));
        match self.namespace {
            Some(ns) => {
                let ns_chars = str_to_chars(interner.resolve(ns));
                if ns_chars.len() > 0 {
                    let mut out = ns_chars;
                    out.push('.');
                    push_all(&mut out, name.as_slice());
                    chars_to_string(out.as_slice())
                } else {
                    chars_to_string(name.as_slice())
                }
            },
            None => chars_to_string(name.as_slice()),
        }
    }

    /// Get the short name for display.
    pub fn get_short_name<'a>(&self, interner: &'a Interner) -> (r: &'a str)
        requires
            interner.has_id(self.name),
        ensures
            r@ == interner.str_of(self.name),
    {
        interner.resolve(self.name)
    }
}

impl PartialEq for Node {
    fn eq(&self, other: &Self) -> (r: bool) {
        self.namespace == other.namespace && self.name == other.name
    }
}

impl vstd::std_specs::cmp::PartialEqSpecImpl for Node {
    open spec fn obeys_eq_spec() -> bool {
        true
    }

    open spec fn eq_spec(&self, other: &Self) -> bool {
        self.namespace == other.namespace && self.name == other.name
    }
}

impl Eq for Node {}

impl std::hash::Hash for Node {
    /// Hashes the namespace and the name only, so that nodes equal under
    /// `==` hash alike.
    ///
    /// Trusted: calls `Hash::hash` of `Option<SymId>` and of `SymId`; no
    /// property of the hasher's state is claimed.
    #[verifier::external_body]
    fn hash<H: std::hash::Hasher>(&self, state: &mut H) {
        self.namespace.hash(state);
        self.name.hash(state);
    }
}

/// A unique identifier for a node in the graph, used as index.
pub type NodeId = usize;

} // verus!
