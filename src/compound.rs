//! The molecular graph: an arena of atoms addressed by handle, a backbone,
//! side-chain adjacency and grid locations.

use vstd::prelude::*;
use vstd::string::StringExecFns;
use crate::atom::{Atom, AtomView};
use crate::chain::{Chain, views, lemma_views};
use crate::element::symbol_of;
use crate::location::Location;
use crate::tree::{Tree, wf, wf_all, lemma_wf_all};

verus! {

/// What a compound is, for contracts.
pub struct CompoundView {
    /// Atoms by handle.
    pub atoms: Seq<AtomView>,
    /// Grid location of each atom, by handle.
    pub locations: Seq<Location>,
    /// Handles of the main chain, in order.
    pub backbone: Seq<usize>,
    /// Side-chain children of each handle, ascending.
    pub side_chains: Seq<Seq<usize>>,
}

/// No location appears twice.
pub open spec fn distinct_locations(s: Seq<Location>) -> bool {
    forall|a: int, b: int| 0 <= a < b < s.len() ==> #[trigger] s[a] != #[trigger] s[b]
}

/// Handles are in range, every atom has a location of its own and a
/// (possibly empty) side-chain entry, and children are listed in ascending
/// order.
pub open spec fn graph_wf(m: CompoundView) -> bool {
    &&& m.locations.len() == m.atoms.len()
    &&& m.side_chains.len() == m.atoms.len()
    &&& distinct_locations(m.locations)
    &&& forall|k: int| 0 <= k < m.backbone.len() ==> #[trigger] m.backbone[k] < m.atoms.len()
    &&& forall|i: int, j: int|
        0 <= i < m.side_chains.len() && 0 <= j < m.side_chains[i].len()
            ==> #[trigger] m.side_chains[i][j] < m.atoms.len()
    &&& forall|i: int, j1: int, j2: int|
        0 <= i < m.side_chains.len() && 0 <= j1 < j2 < m.side_chains[i].len()
            ==> #[trigger] m.side_chains[i][j1] < #[trigger] m.side_chains[i][j2]
}

/// The tree of atom `i`: its symbol alone, or, when it has side-chain
/// children and `fuel` is left, a group of its symbol followed by the
/// children's trees. `fuel` bounds the depth of the walk.
pub open spec fn atom_tree(m: CompoundView, i: int, fuel: nat) -> Tree
    decreases fuel, 0nat,
{
    let leaf = Tree::Leaf(symbol_of(m.atoms[i].number), 1);
    if fuel > 0 && m.side_chains[i].len() > 0 {
        Tree::Group(seq![leaf] + atom_trees(m, m.side_chains[i], (fuel - 1) as nat), 1)
    } else {
        leaf
    }
}

pub open spec fn atom_trees(m: CompoundView, s: Seq<usize>, fuel: nat) -> Seq<Tree>
    decreases fuel, s.len() + 1,
{
    if s.len() == 0 {
        Seq::empty()
    } else {
        atom_trees(m, s.drop_last(), fuel).push(atom_tree(m, s.last() as int, fuel))
    }
}

/// The compound as walked from its backbone, before any condensing. The walk
/// goes at most as deep as there are atoms.
pub open spec fn compound_tree(m: CompoundView) -> Tree {
    Tree::Group(atom_trees(m, m.backbone, m.atoms.len()), 1)
}

pub proof fn lemma_atom_trees(m: CompoundView, s: Seq<usize>, fuel: nat)
    ensures
        atom_trees(m, s, fuel).len() == s.len(),
        forall|j: int|
            0 <= j < s.len() ==> #[trigger] atom_trees(m, s, fuel)[j] == atom_tree(
                m,
                s[j] as int,
                fuel,
            ),
    decreases s.len(),
{
    if s.len() > 0 {
        lemma_atom_trees(m, s.drop_last(), fuel);
        assert(atom_trees(m, s, fuel) == atom_trees(m, s.drop_last(), fuel).push(
            atom_tree(m, s.last() as int, fuel),
        ));
    }
}

/// Every walked tree is well formed.
pub proof fn lemma_atom_tree_wf(m: CompoundView, i: int, fuel: nat)
    ensures
        wf(atom_tree(m, i, fuel)),
    decreases fuel,
{
    let leaf = Tree::Leaf(symbol_of(m.atoms[i].number), 1);
    if fuel > 0 && m.side_chains[i].len() > 0 {
        let f = (fuel - 1) as nat;
        let s = m.side_chains[i];
        let ch = seq![leaf] + atom_trees(m, s, f);
        lemma_atom_trees(m, s, f);
        assert forall|j: int| 0 <= j < ch.len() implies #[trigger] wf(ch[j]) by {
            if j > 0 {
                assert(ch[j] == atom_trees(m, s, f)[j - 1]);
                lemma_atom_tree_wf(m, s[j - 1] as int, f);
            }
        }
        lemma_wf_all(ch);
        assert(wf(Tree::Group(ch, 1)) == (ch.len() >= 1 && wf_all(ch)));
    }
}

/// A compound with a non-empty backbone walks to a well-formed tree.
pub proof fn lemma_compound_tree_wf(m: CompoundView)
    requires
        m.backbone.len() > 0,
    ensures
        wf(compound_tree(m)),
{
    let s = m.backbone;
    let ch = atom_trees(m, s, m.atoms.len());
    lemma_atom_trees(m, s, m.atoms.len());
    assert forall|j: int| 0 <= j < ch.len() implies #[trigger] wf(ch[j]) by {
        lemma_atom_tree_wf(m, s[j] as int, m.atoms.len());
    }
    lemma_wf_all(ch);
    assert(wf(Tree::Group(ch, 1)) == (ch.len() >= 1 && wf_all(ch)));
}

/// A covalent compound: immutable once built.
#[derive(Debug)]
pub struct Compound {
    atoms: Vec<Atom>,
    locations: Vec<Location>,
    backbone: Vec<usize>,
    side_chains: Vec<Vec<usize>>,
}

pub open spec fn atom_views(s: Seq<Atom>) -> Seq<AtomView> {
    s.map_values(|a: Atom| a@)
}

pub open spec fn list_views(s: Seq<Vec<usize>>) -> Seq<Seq<usize>> {
    s.map_values(|v: Vec<usize>| v@)
}

impl View for Compound {
    type V = CompoundView;

    closed spec fn view(&self) -> CompoundView {
        CompoundView {
            atoms: atom_views(self.atoms@),
            locations: self.locations@,
            backbone: self.backbone@,
            side_chains: list_views(self.side_chains@),
        }
    }
}

impl Compound {
    #[verifier::type_invariant]
    closed spec fn inv(&self) -> bool {
        graph_wf(self@)
    }

    /// A compound from its tables: atoms and their locations by handle, the
    /// backbone, and each handle's side-chain children.
    pub fn new(
        atoms: Vec<Atom>,
        locations: Vec<Location>,
        backbone: Vec<usize>,
        side_chains: Vec<Vec<usize>>,
    ) -> (r: Self)
        requires
            graph_wf(
                CompoundView {
                    atoms: atom_views(atoms@),
                    locations: locations@,
                    backbone: backbone@,
                    side_chains: list_views(side_chains@),
                },
            ),
        ensures
            r@ == (CompoundView {
                atoms: atom_views(atoms@),
                locations: locations@,
                backbone: backbone@,
                side_chains: list_views(side_chains@),
            }),
    {
        Compound { atoms, locations, backbone, side_chains }
    }

    /// The atom of handle `i`, if there is one.
    pub fn atom_at(&self, i: usize) -> (r: Option<&Atom>)
        ensures
            r is Some <==> i < self@.atoms.len(),
            r matches Some(a) ==> a@ == self@.atoms[i as int],
    {
        if i < self.atoms.len() {
            Some(&self.atoms[i])
        } else {
            None
        }
    }

    /// The grid location of handle `i`, if there is such an atom.
    pub fn location_at(&self, i: usize) -> (r: Option<Location>)
        ensures
            r is Some <==> i < self@.atoms.len(),
            r matches Some(l) ==> l == self@.locations[i as int],
    {
        proof {
            use_type_invariant(self);
        }
        if i < self.locations.len() {
            Some(self.locations[i])
        } else {
            None
        }
    }

    /// Whether handle `i` has side-chain children.
    pub fn has_side_chain(&self, i: usize) -> (r: bool)
        ensures
            r == (i < self@.side_chains.len() && self@.side_chains[i as int].len() > 0),
    {
        i < self.side_chains.len() && self.side_chains[i].len() > 0
    }

    /// The side-chain children of handle `i`, ascending.
    pub fn side_chain_children(&self, i: usize) -> (r: &Vec<usize>)
        requires
            i < self@.atoms.len(),
        ensures
            r@ == self@.side_chains[i as int],
    {
        proof {
            use_type_invariant(self);
        }
        &self.side_chains[i]
    }

    /// The backbone's handles, in order.
    pub fn backbone(&self) -> (r: &Vec<usize>)
        ensures
            r@ == self@.backbone,
    {
        &self.backbone
    }

    /// The number of atoms.
    pub fn atom_count(&self) -> (r: usize)
        ensures
            r == self@.atoms.len(),
    {
        self.atoms.len()
    }

    /// The tree of atom `i`, walked at most `fuel` levels deep.
    fn atom_chain(&self, i: usize, fuel: usize) -> (r: Chain)
        requires
            i < self@.atoms.len(),
        ensures
            r@ == atom_tree(self@, i as int, fuel as nat),
        decreases fuel,
    {
        proof {
            use_type_invariant(self);
        }
        let sym = self.atoms[i].to_string();
        if fuel > 0 && self.side_chains[i].len() > 0 {
            let children = &self.side_chains[i];
            let ghost f = (fuel - 1) as nat;
            let ghost leaf = Tree::Leaf(symbol_of(self@.atoms[i as int].number), 1);
            let mut v: Vec<Chain> = Vec::new();
            v.push(Chain::KV(sym, 1));
            let mut j: usize = 0;
            while j < children.len()
                invariant
                    graph_wf(self@),
                    children@ == self@.side_chains[i as int],
                    i < self@.atoms.len(),
                    fuel > 0,
                    f == fuel - 1,
                    j <= children.len(),
                    v@.len() == j + 1,
                    v@[0]@ == leaf,
                    forall|k: int|
                        0 < k <= j ==> #[trigger] v@[k]@ == atom_tree(
                            self@,
                            children@[k - 1] as int,
                            f,
                        ),
                decreases children.len() - j,
            {
                let c = children[j];
                v.push(self.atom_chain(c, fuel - 1));
                j += 1;
            }
            proof {
                lemma_views(v@);
                lemma_atom_trees(self@, children@, f);
                assert(views(v@) =~= seq![leaf] + atom_trees(self@, children@, f));
            }
            Chain::Vec(v, 1)
        } else {
            Chain::KV(sym, 1)
        }
    }

    /// The compound walked from its backbone, before any condensing.
    pub fn raw_chain(&self) -> (r: Chain)
        ensures
            r@ == compound_tree(self@),
    {
        proof {
            use_type_invariant(self);
        }
        let fuel = self.atoms.len();
        let mut v: Vec<Chain> = Vec::new();
        let mut k: usize = 0;
        while k < self.backbone.len()
            invariant
                graph_wf(self@),
                fuel == self@.atoms.len(),
                k <= self.backbone.len(),
                self.backbone@ == self@.backbone,
                v@.len() == k,
                forall|j: int|
                    0 <= j < k ==> #[trigger] v@[j]@ == atom_tree(
                        self@,
                        self@.backbone[j] as int,
                        fuel as nat,
                    ),
            decreases self.backbone.len() - k,
        {
            v.push(self.atom_chain(self.backbone[k], fuel));
            k += 1;
        }
        proof {
            lemma_views(v@);
            lemma_atom_trees(self@, self@.backbone, fuel as nat);
            assert(views(v@) =~= atom_trees(self@, self@.backbone, fuel as nat));
        }
        Chain::Vec(v, 1)
    }
}

/// Why a compound could not be read or made.
#[derive(Debug)]
pub enum CompoundError {
    Parsing(String),
    Unknown(String),
}

/// A plain compound with no structure of its own.
pub struct SimpleCompound {}

/// Families of compounds.
pub enum CompoundTypes {
    LinearChain,
    AminoAcid,
    Polypeptide,
}

/// Compounds built around one unbranched chain.
pub trait LinearChain {
    /// Length of the chain.
    fn chain_len() -> usize;
}

/// A piece of a formula being read: a text, its repeat count, and its parts.
pub struct Token {
    pub str: String,
    pub count: u16,
    pub parts: Vec<Token>,
}

impl Token {
    /// A token of text `s`, with no count and no parts yet.
    pub fn new(s: String) -> (r: Self)
        ensures
            r.str@ == s@,
            r.count == 0,
            r.parts@.len() == 0,
    {
        Token { str: s, count: 0, parts: Vec::new() }
    }
}

impl Compound {
    /// Reading a compound from formula text is not supported: every input
    /// is refused with a parsing error.
    pub fn parse(_s: &str) -> (r: Result<Self, CompoundError>)
        ensures
            r matches Err(CompoundError::Parsing(_)),
    {
        Err(CompoundError::Parsing(String::from_str("formula parsing is not supported")))
    }
}

} // verus!
