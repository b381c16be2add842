//! `CompoundBuilder`: synthesizes saturated linear hydrocarbons and places
//! every atom on the grid.

use vstd::prelude::*;
use vstd::string::StringExecFns;
use crate::atom::{Atom, AtomView};
use crate::compound::{Compound, CompoundView, graph_wf, atom_views, list_views, distinct_locations};
use crate::location::Location;

verus! {

/// Why a compound could not be built.
#[derive(Debug)]
pub enum CompoundBuilderError {
    /// A side-chain atom found no free grid neighbour.
    SideChainError(String),
    /// The builder's own tables disagree, or an atom has more than four
    /// side-chain atoms.
    LocationGenerationErr(String),
}

/// Backbone neighbours of position `i` in a chain of `n`.
pub open spec fn neighbours(i: int, n: int) -> int {
    (if i + 1 < n { 1int } else { 0int }) + (if i > 0 { 1int } else { 0int })
}

/// Hydrogens that position `i` takes to reach four bonds.
pub open spec fn hydrogens(i: int, n: int) -> int {
    4 - neighbours(i, n)
}

/// Handle of the first hydrogen of position `i`: hydrogens follow the
/// carbons, position by position.
pub open spec fn first_hydrogen(i: int, n: int) -> int
    decreases i,
{
    if i <= 0 {
        n
    } else {
        first_hydrogen(i - 1, n) + hydrogens(i - 1, n)
    }
}

/// The neighbour offsets left, right, up, down: the order in which places
/// are tried.
pub open spec fn candidates() -> Seq<(int, int)> {
    seq![(-1int, 0int), (1int, 0int), (0int, 1int), (0int, -1int)]
}

/// The offsets around position `i` that no backbone atom takes, in the
/// order of `candidates`.
pub open spec fn free_offsets(i: int, n: int) -> Seq<(int, int)> {
    (if i == 0 { seq![(-1int, 0int)] } else { Seq::empty() }) + (if i == n - 1 {
        seq![(1int, 0int)]
    } else {
        Seq::empty()
    }) + seq![(0int, 1int), (0int, -1int)]
}

pub open spec fn at(x: int, y: int) -> Location {
    Location { x: x as i16, y: y as i16 }
}

/// Locations of the first `t` hydrogens of position `i`.
pub open spec fn own_locations(i: int, n: int, t: int) -> Seq<Location> {
    Seq::new(t as nat, |s: int| at(i + free_offsets(i, n)[s].0, free_offsets(i, n)[s].1))
}

/// Locations of the hydrogens of positions before `i`.
pub open spec fn hydrogen_locations(i: int, n: int) -> Seq<Location>
    decreases i,
{
    if i <= 0 {
        Seq::empty()
    } else {
        hydrogen_locations(i - 1, n) + own_locations(i - 1, n, hydrogens(i - 1, n))
    }
}

pub open spec fn backbone_locations(n: int) -> Seq<Location> {
    Seq::new(n as nat, |k: int| at(k, 0))
}

/// Side-chain children of each handle of a linear chain of `n`.
pub open spec fn linear_side_chains(n: int) -> Seq<Seq<usize>> {
    Seq::new(
        first_hydrogen(n, n) as nat,
        |k: int|
            if k < n {
                Seq::new(hydrogens(k, n) as nat, |t: int| (first_hydrogen(k, n) + t) as usize)
            } else {
                Seq::empty()
            },
    )
}

pub open spec fn carbon_view() -> AtomView {
    AtomView { number: 6, neutrons: 0, electrons: 6 }
}

pub open spec fn hydrogen_view() -> AtomView {
    AtomView { number: 1, neutrons: 0, electrons: 1 }
}

/// The saturated linear hydrocarbon with a backbone of `n` carbons: carbons
/// first, then the hydrogens of each carbon in turn; carbon `k` at `(k, 0)`,
/// each hydrogen on the first place around its carbon that is free, trying
/// left, right, up, down.
pub open spec fn linear_view(n: int) -> CompoundView {
    CompoundView {
        atoms: Seq::new(
            first_hydrogen(n, n) as nat,
            |k: int|
                if k < n {
                    carbon_view()
                } else {
                    hydrogen_view()
                },
        ),
        locations: backbone_locations(n) + hydrogen_locations(n, n),
        backbone: Seq::new(n as nat, |k: int| k as usize),
        side_chains: linear_side_chains(n),
    }
}

pub proof fn lemma_free_offsets_len(i: int, n: int)
    requires
        0 <= i < n,
    ensures
        free_offsets(i, n).len() == hydrogens(i, n),
        2 <= hydrogens(i, n) <= 4,
{
}

pub proof fn lemma_first_hydrogen(i: int, n: int)
    requires
        0 <= i <= n,
    ensures
        n + 2 * i <= first_hydrogen(i, n) <= n + 4 * i,
        hydrogen_locations(i, n).len() == first_hydrogen(i, n) - n,
    decreases i,
{
    if i > 0 {
        lemma_first_hydrogen(i - 1, n);
        lemma_free_offsets_len(i - 1, n);
    }
}

/// Before position `i` (not the last) is served, every hydrogen placed sits
/// left of the first carbon, or just above or below an earlier carbon.
pub proof fn lemma_hydrogen_places(i: int, n: int)
    requires
        0 <= i <= n - 1,
        n <= 32767,
    ensures
        forall|k: int|
            0 <= k < hydrogen_locations(i, n).len() ==> {
                let p = #[trigger] hydrogen_locations(i, n)[k];
                (p.x == -1 && p.y == 0) || (0 <= p.x < i && (p.y == 1 || p.y == -1))
            },
    decreases i,
{
    if i > 0 {
        lemma_hydrogen_places(i - 1, n);
        lemma_first_hydrogen(i - 1, n);
        let a = hydrogen_locations(i - 1, n);
        let b = own_locations(i - 1, n, hydrogens(i - 1, n));
        assert(hydrogen_locations(i, n) == a + b);
        assert forall|k: int| 0 <= k < (a + b).len() implies {
            let p = #[trigger] (a + b)[k];
            (p.x == -1 && p.y == 0) || (0 <= p.x < i && (p.y == 1 || p.y == -1))
        } by {
            if k >= a.len() {
                let s = k - a.len();
                assert(b[s] == at(i - 1 + free_offsets(i - 1, n)[s].0, free_offsets(i - 1, n)[s].1));
            }
        }
    }
}

/// Whether some location of `locs` is `p`.
pub open spec fn occupied(locs: Seq<Location>, p: Location) -> bool {
    exists|k: int| 0 <= k < locs.len() && locs[k] == p
}

/// The first of left, right, up, down around `base` that `locs` leaves free.
pub open spec fn first_free(locs: Seq<Location>, base: Location) -> Option<Location> {
    let l = at(base.x - 1, base.y as int);
    let r = at(base.x + 1, base.y as int);
    let u = at(base.x as int, base.y + 1);
    let d = at(base.x as int, base.y - 1);
    if !occupied(locs, l) {
        Some(l)
    } else if !occupied(locs, r) {
        Some(r)
    } else if !occupied(locs, u) {
        Some(u)
    } else if !occupied(locs, d) {
        Some(d)
    } else {
        None
    }
}

/// While position `i` is served, its `t`-th hydrogen goes to the `t`-th of
/// its free offsets.
pub proof fn lemma_next_place(i: int, n: int, t: int)
    requires
        0 <= i < n,
        n <= 32767,
        0 <= t < hydrogens(i, n),
    ensures
        first_free(
            backbone_locations(n) + hydrogen_locations(i, n) + own_locations(i, n, t),
            at(i, 0),
        ) == Some(own_locations(i, n, t + 1)[t]),
{
    let locs = backbone_locations(n) + hydrogen_locations(i, n) + own_locations(i, n, t);
    let f = free_offsets(i, n);
    let h = hydrogen_locations(i, n);
    let o = own_locations(i, n, t);
    let nb = n + h.len();
    lemma_hydrogen_places(i, n);
    lemma_first_hydrogen(i, n);
    lemma_free_offsets_len(i, n);
    let base = at(i, 0);
    assert(base.x == i && base.y == 0);
    let l = at(i - 1, 0);
    let r = at(i + 1, 0);
    let u = at(i, 1);
    let d = at(i, -1);
    // Where each place stands among the free offsets, if it is free.
    let li: int = 0;
    let ri: int = if i == 0 { 1 } else { 0 };
    let ui: int = (if i == 0 { 1int } else { 0int }) + (if i == n - 1 { 1int } else { 0int });
    let di: int = ui + 1;
    assert(f[ui] == (0int, 1int));
    assert(f[di] == (0int, -1int));
    if i == 0 {
        assert(f[li] == (-1int, 0int));
    }
    if i == n - 1 {
        assert(f[ri] == (1int, 0int));
    }
    // A place among the first `t` free offsets is taken by this position's
    // own hydrogens.
    assert forall|s: int| 0 <= s < t implies #[trigger] locs[nb + s] == at(i + f[s].0, f[s].1) by {
        assert(locs[nb + s] == o[s]);
    }
    // A place that is a later free offset is taken by nobody.
    assert forall|s: int| t <= s < f.len() implies !occupied(locs, #[trigger] at(i + f[s].0, f[s].1)) by {
        let p = at(i + f[s].0, f[s].1);
        if occupied(locs, p) {
            let k = choose|k: int| 0 <= k < locs.len() && locs[k] == p;
            if k < n {
                assert(locs[k] == at(k, 0));
            } else if k < nb {
                assert(locs[k] == h[k - n]);
            } else {
                let s2 = k - nb;
                assert(locs[k] == o[s2]);
                assert(o[s2] == at(i + f[s2].0, f[s2].1));
            }
        }
    }
    if i > 0 {
        assert(locs[i - 1] == l);
    }
    if i < n - 1 {
        assert(locs[i + 1] == r);
    }
    if i == 0 {
        if 0 < t {
            assert(locs[nb + li] == at(i + f[li].0, f[li].1));
        }
    }
    if i == n - 1 {
        if ri < t {
            assert(locs[nb + ri] == at(i + f[ri].0, f[ri].1));
        }
    }
    if ui < t {
        assert(locs[nb + ui] == at(i + f[ui].0, f[ui].1));
    }
    if di < t {
        assert(locs[nb + di] == at(i + f[di].0, f[di].1));
    }
    assert(own_locations(i, n, t + 1)[t] == at(i + f[t].0, f[t].1));
}

/// Whether some location of `locs` is `p`.
fn is_occupied(locs: &Vec<Location>, p: Location) -> (r: bool)
    ensures
        r == occupied(locs@, p),
{
    let mut k: usize = 0;
    while k < locs.len()
        invariant
            k <= locs.len(),
            forall|j: int| 0 <= j < k ==> locs@[j] != p,
        decreases locs.len() - k,
    {
        if locs[k] == p {
            return true;
        }
        k += 1;
    }
    false
}

/// The first of left, right, up, down around `base` that `locs` leaves free.
fn find_free(locs: &Vec<Location>, base: Location) -> (r: Option<Location>)
    requires
        i16::MIN < base.x < i16::MAX,
        i16::MIN < base.y < i16::MAX,
    ensures
        r == first_free(locs@, base),
{
    let l = base.shift(-1, 0);
    if !is_occupied(locs, l) {
        return Some(l);
    }
    let r = base.shift(1, 0);
    if !is_occupied(locs, r) {
        return Some(r);
    }
    let u = base.shift(0, 1);
    if !is_occupied(locs, u) {
        return Some(u);
    }
    let d = base.shift(0, -1);
    if !is_occupied(locs, d) {
        return Some(d);
    }
    None
}

/// Gives each of the `n` backbone atoms hydrogens until it has four bonds,
/// counting its backbone neighbours: the new hydrogens are appended to
/// `atoms`, position by position. Returns each handle's side-chain children.
fn satisfy_backbone_octets(atoms: &mut Vec<Atom>, n: usize) -> (r: Vec<Vec<usize>>)
    requires
        n <= 32767,
        old(atoms)@.len() == n,
    ensures
        atom_views(final(atoms)@) == atom_views(old(atoms)@) + Seq::new(
            (first_hydrogen(n as int, n as int) - n) as nat,
            |k: int| hydrogen_view(),
        ),
        list_views(r@) == linear_side_chains(n as int),
{
    let ghost ni = n as int;
    proof {
        lemma_first_hydrogen(ni, ni);
    }
    let ghost old_views = atom_views(atoms@);
    let mut lists: Vec<Vec<usize>> = Vec::new();
    let mut working_idx: usize = n;
    let mut i: usize = 0;
    while i < n
        invariant
            n <= 32767,
            ni == n,
            i <= n,
            3 * ni <= first_hydrogen(ni, ni),
            working_idx == first_hydrogen(i as int, ni),
            working_idx <= n + 4 * i,
            atoms@.len() == working_idx,
            forall|k: int| 0 <= k < n ==> #[trigger] atoms@[k]@ == old_views[k],
            forall|k: int| n <= k < working_idx ==> #[trigger] atoms@[k]@ == hydrogen_view(),
            old_views.len() == n,
            lists@.len() == i,
            forall|k: int|
                0 <= k < i ==> #[trigger] lists@[k]@ == linear_side_chains(ni)[k],
        decreases n - i,
    {
        proof {
            lemma_first_hydrogen(i as int, ni);
            lemma_free_offsets_len(i as int, ni);
        }
        let mut primary_chain_atoms: usize = 0;
        if i + 1 < n {
            primary_chain_atoms += 1;
        }
        if i > 0 {
            primary_chain_atoms += 1;
        }
        let ghost start = working_idx as int;
        let mut children: Vec<usize> = Vec::new();
        while primary_chain_atoms + children.len() < 4
            invariant
                n <= 32767,
                ni == n,
                i < n,
                primary_chain_atoms == neighbours(i as int, ni),
                start == first_hydrogen(i as int, ni),
                start <= n + 4 * i,
                n <= start,
                old_views.len() == n,
                children@.len() <= hydrogens(i as int, ni),
                working_idx == start + children@.len(),
                atoms@.len() == working_idx,
                forall|k: int| 0 <= k < n ==> #[trigger] atoms@[k]@ == old_views[k],
                forall|k: int| n <= k < working_idx ==> #[trigger] atoms@[k]@ == hydrogen_view(),
                forall|t: int| 0 <= t < children@.len() ==> #[trigger] children@[t] == start + t,
            decreases 4 - children@.len(),
        {
            atoms.push(Atom::hydrogen());
            children.push(working_idx);
            working_idx += 1;
        }
        proof {
            assert(children@.len() == hydrogens(i as int, ni));
            assert(children@ =~= linear_side_chains(ni)[i as int]);
        }
        lists.push(children);
        i += 1;
    }
    proof {
        lemma_first_hydrogen(ni, ni);
    }
    let ghost total = working_idx as int;
    while lists.len() < working_idx
        invariant
            n <= lists@.len() <= working_idx,
            ni == n,
            working_idx == total,
            total == first_hydrogen(ni, ni),
            forall|k: int|
                0 <= k < lists@.len() ==> #[trigger] lists@[k]@ == linear_side_chains(ni)[k],
        decreases working_idx - lists.len(),
    {
        lists.push(Vec::new());
    }
    proof {
        assert(list_views(lists@) =~= linear_side_chains(ni));
        assert(atom_views(atoms@) =~= old_views + Seq::new(
            (first_hydrogen(ni, ni) - n) as nat,
            |k: int| hydrogen_view(),
        ));
    }
    lists
}

/// What placing side-chain atoms comes to.
pub enum Placement {
    /// Every atom placed: the locations by handle.
    Placed(Seq<Location>),
    /// Some side-chain atom found all four places around its parent taken.
    NoRoom,
    /// Some backbone atom has more than four side-chain atoms.
    Crowded,
    /// A side-chain atom's handle is not the next free handle.
    Misnumbered,
}

/// Placing, from the `t`-th side-chain atom of backbone position `i` on,
/// with `locs` placed so far: positions in order, children in their listed
/// order, each on the first free place around its parent at `(i, 0)`.
pub open spec fn place_from(sc: Seq<Seq<usize>>, n: int, i: int, t: int, locs: Seq<Location>) -> Placement
    decreases n - i, sc[i].len() - t,
{
    if i < 0 || i >= n {
        Placement::Placed(locs)
    } else if t <= 0 && sc[i].len() > 4 {
        Placement::Crowded
    } else if t >= sc[i].len() {
        Placement::Placed(locs)
    } else {
        match first_free(locs, at(i, 0)) {
            None => Placement::NoRoom,
            Some(p) => if locs.len() != sc[i][t] {
                Placement::Misnumbered
            } else {
                place_from(sc, n, i, t + 1, locs.push(p))
            },
        }
    }
}

/// Placing the side-chain atoms of positions from `i` on.
pub open spec fn place_positions(sc: Seq<Seq<usize>>, n: int, i: int, locs: Seq<Location>) -> Placement
    decreases n - i,
{
    if i < 0 || i >= n {
        Placement::Placed(locs)
    } else {
        match place_from(sc, n, i, 0, locs) {
            Placement::Placed(l2) => place_positions(sc, n, i + 1, l2),
            other => other,
        }
    }
}

/// Placing every side-chain atom of a backbone `0..n` placed on `(k, 0)`.
pub open spec fn placement(sc: Seq<Seq<usize>>, n: int) -> Placement {
    place_positions(sc, n, 0, backbone_locations(n))
}

/// Places backbone atom `i` at `(i, 0)`, then each side-chain atom of each
/// backbone atom, in order, on the first free place around it, trying left,
/// right, up, down. Fails when an atom finds no free place, when a backbone
/// atom has more than four side-chain atoms, or when a side-chain atom's
/// handle is not the next one to place.
fn gen_locations(backbone: &Vec<usize>, side_chains: &Vec<Vec<usize>>) -> (r: Result<
    Vec<Location>,
    CompoundBuilderError,
>)
    requires
        backbone@.len() <= 32767,
        backbone@ == Seq::new(backbone@.len(), |k: int| k as usize),
        side_chains@.len() >= backbone@.len(),
    ensures
        match placement(list_views(side_chains@), backbone@.len() as int) {
            Placement::Placed(v) => r matches Ok(w) && w@ == v,
            Placement::NoRoom => r matches Err(CompoundBuilderError::SideChainError(_)),
            _ => r matches Err(CompoundBuilderError::LocationGenerationErr(_)),
        },
{
    let n = backbone.len();
    let ghost ni = n as int;
    let ghost sc = list_views(side_chains@);
    let mut locations: Vec<Location> = Vec::new();
    let mut k: usize = 0;
    while k < n
        invariant
            n == backbone@.len(),
            n <= 32767,
            backbone@ == Seq::new(backbone@.len(), |k: int| k as usize),
            ni == n,
            k <= n,
            locations@ =~= backbone_locations(k as int),
        decreases n - k,
    {
        let i = backbone[k];
        locations.push(Location::new(i as i16, 0));
        k += 1;
    }
    let mut i: usize = 0;
    while i < n
        invariant
            n == backbone@.len(),
            n <= 32767,
            ni == n,
            i <= n,
            sc == list_views(side_chains@),
            side_chains@.len() >= n,
            locations@.len() >= n,
            forall|k: int| 0 <= k < n ==> #[trigger] locations@[k] == at(k, 0),
            placement(sc, ni) == place_positions(sc, ni, i as int, locations@),
        decreases n - i,
    {
        let ghost start = locations@;
        proof {
            assert(side_chains@[i as int]@ == sc[i as int]);
            assert(place_positions(sc, ni, i as int, start) == match place_from(sc, ni, i as int, 0, start) {
                Placement::Placed(l2) => place_positions(sc, ni, i as int + 1, l2),
                other => other,
            });
        }
        let base = locations[i];
        let remote = &side_chains[i];
        if remote.len() > 4 {
            proof {
                assert(place_from(sc, ni, i as int, 0, start) == Placement::Crowded);
            }
            return Err(
                CompoundBuilderError::LocationGenerationErr(
                    String::from_str("Expanded octet prohibited"),
                ),
            );
        }
        let mut t: usize = 0;
        while t < remote.len()
            invariant
                n <= 32767,
                ni == n,
                n == backbone@.len(),
                sc == list_views(side_chains@),
                i < n,
                base == at(i as int, 0),
                remote@ == sc[i as int],
                remote@.len() <= 4,
                t <= remote@.len(),
                locations@.len() >= n,
                forall|k: int| 0 <= k < n ==> #[trigger] locations@[k] == at(k, 0),
                place_from(sc, ni, i as int, 0, start) == place_from(
                    sc,
                    ni,
                    i as int,
                    t as int,
                    locations@,
                ),
                !(place_from(sc, ni, i as int, 0, start) is Placed) ==> placement(sc, ni)
                    == place_from(sc, ni, i as int, 0, start),
                place_from(sc, ni, i as int, 0, start) matches Placement::Placed(l2) ==> placement(
                    sc,
                    ni,
                ) == place_positions(sc, ni, i as int + 1, l2),
            decreases remote@.len() - t,
        {
            let idx = remote[t];
            let ghost before = locations@;
            proof {
                assert(place_from(sc, ni, i as int, t as int, before) == match first_free(before, at(i as int, 0)) {
                    None => Placement::NoRoom,
                    Some(p) => if before.len() != sc[i as int][t as int] {
                        Placement::Misnumbered
                    } else {
                        place_from(sc, ni, i as int, t as int + 1, before.push(p))
                    },
                });
            }
            match find_free(&locations, base) {
                None => {
                    return Err(
                        CompoundBuilderError::SideChainError(
                            String::from_str("Location assignment failed"),
                        ),
                    );
                },
                Some(loc) => {
                    if locations.len() != idx {
                        return Err(
                            CompoundBuilderError::LocationGenerationErr(
                                String::from_str(
                                    "Location vector length - remote atom's index mismatch",
                                ),
                            ),
                        );
                    }
                    locations.push(loc);
                },
            }
            t += 1;
        }
        proof {
            assert(place_from(sc, ni, i as int, t as int, locations@) == Placement::Placed(
                locations@,
            ));
        }
        i += 1;
    }
    proof {
        assert(place_positions(sc, ni, n as int, locations@) == Placement::Placed(locations@));
    }
    Ok(locations)
}

/// A linear chain's position `i` places its hydrogens from the `t`-th on.
pub proof fn lemma_linear_place_from(n: int, i: int, t: int)
    requires
        1 <= n <= 32767,
        0 <= i < n,
        0 <= t <= hydrogens(i, n),
    ensures
        place_from(
            linear_side_chains(n),
            n,
            i,
            t,
            backbone_locations(n) + hydrogen_locations(i, n) + own_locations(i, n, t),
        ) == Placement::Placed(backbone_locations(n) + hydrogen_locations(i + 1, n)),
    decreases hydrogens(i, n) - t,
{
    let sc = linear_side_chains(n);
    let locs = backbone_locations(n) + hydrogen_locations(i, n) + own_locations(i, n, t);
    lemma_first_hydrogen(n, n);
    lemma_first_hydrogen(i, n);
    lemma_free_offsets_len(i, n);
    assert(sc[i] == Seq::new(hydrogens(i, n) as nat, |s: int| (first_hydrogen(i, n) + s) as usize));
    assert(hydrogen_locations(i + 1, n) == hydrogen_locations(i, n) + own_locations(
        i,
        n,
        hydrogens(i, n),
    ));
    if t == hydrogens(i, n) {
        assert(locs =~= backbone_locations(n) + hydrogen_locations(i + 1, n));
    } else {
        lemma_next_place(i, n, t);
        let p = own_locations(i, n, t + 1)[t];
        assert(locs.len() == first_hydrogen(i, n) + t);
        assert(first_hydrogen(i, n) + t <= 5 * 32767);
        assert(sc[i][t] == (first_hydrogen(i, n) + t) as usize);
        assert(locs.push(p) =~= backbone_locations(n) + hydrogen_locations(i, n) + own_locations(
            i,
            n,
            t + 1,
        ));
        lemma_linear_place_from(n, i, t + 1);
    }
}

/// A linear chain places the hydrogens of positions `i` on.
pub proof fn lemma_linear_positions(n: int, i: int)
    requires
        1 <= n <= 32767,
        0 <= i <= n,
    ensures
        place_positions(linear_side_chains(n), n, i, backbone_locations(n) + hydrogen_locations(i, n))
            == Placement::Placed(backbone_locations(n) + hydrogen_locations(n, n)),
    decreases n - i,
{
    if i < n {
        lemma_linear_place_from(n, i, 0);
        assert(backbone_locations(n) + hydrogen_locations(i, n) + own_locations(i, n, 0)
            =~= backbone_locations(n) + hydrogen_locations(i, n));
        lemma_linear_positions(n, i + 1);
    }
}

/// A linear chain places every hydrogen, as `linear_view` says.
pub proof fn lemma_linear_placement(n: int)
    requires
        0 <= n <= 32767,
    ensures
        placement(linear_side_chains(n), n) == Placement::Placed(linear_view(n).locations),
{
    if n == 0 {
        assert(hydrogen_locations(0, 0) == Seq::<Location>::empty());
        assert(backbone_locations(0) + hydrogen_locations(0, 0) =~= backbone_locations(0));
    } else {
        lemma_linear_positions(n, 0);
        assert(backbone_locations(n) + hydrogen_locations(0, n) =~= backbone_locations(n));
    }
}

/// A place found free keeps the locations distinct.
pub proof fn lemma_push_free(locs: Seq<Location>, base: Location)
    requires
        distinct_locations(locs),
        first_free(locs, base) is Some,
    ensures
        distinct_locations(locs.push(first_free(locs, base)->0)),
{
    let p = first_free(locs, base)->0;
    assert(!occupied(locs, p));
    let l2 = locs.push(p);
    assert forall|a: int, b: int| 0 <= a < b < l2.len() implies #[trigger] l2[a] != #[trigger] l2[b] by {
        if b == locs.len() {
            assert(locs[a] != p);
        } else {
            assert(locs[a] != locs[b]);
        }
    }
}

/// Placing keeps the locations distinct.
pub proof fn lemma_place_from_distinct(sc: Seq<Seq<usize>>, n: int, i: int, t: int, locs: Seq<Location>)
    requires
        distinct_locations(locs),
    ensures
        place_from(sc, n, i, t, locs) matches Placement::Placed(v) ==> distinct_locations(v),
    decreases n - i, sc[i].len() - t,
{
    if 0 <= i < n && !(t <= 0 && sc[i].len() > 4) && t < sc[i].len() {
        if let Some(p) = first_free(locs, at(i, 0)) {
            if locs.len() == sc[i][t] {
                lemma_push_free(locs, at(i, 0));
                lemma_place_from_distinct(sc, n, i, t + 1, locs.push(p));
            }
        }
    }
}

pub proof fn lemma_place_positions_distinct(sc: Seq<Seq<usize>>, n: int, i: int, locs: Seq<Location>)
    requires
        distinct_locations(locs),
    ensures
        place_positions(sc, n, i, locs) matches Placement::Placed(v) ==> distinct_locations(v),
    decreases n - i,
{
    if 0 <= i < n {
        lemma_place_from_distinct(sc, n, i, 0, locs);
        if let Placement::Placed(l2) = place_from(sc, n, i, 0, locs) {
            lemma_place_positions_distinct(sc, n, i + 1, l2);
        }
    }
}

/// Every placement of side-chain atoms around a backbone `0..n` leaves each
/// atom a location of its own.
pub proof fn lemma_placement_distinct(sc: Seq<Seq<usize>>, n: int)
    requires
        0 <= n <= 32767,
    ensures
        placement(sc, n) matches Placement::Placed(v) ==> distinct_locations(v),
{
    let b = backbone_locations(n);
    assert forall|x: int, y: int| 0 <= x < y < b.len() implies #[trigger] b[x] != #[trigger] b[y] by {
        assert(b[x].x == x && b[y].x == y);
    }
    lemma_place_positions_distinct(sc, n, 0, b);
}

pub proof fn lemma_first_hydrogen_monotone(i: int, j: int, n: int)
    requires
        0 <= i <= j <= n,
    ensures
        first_hydrogen(i, n) <= first_hydrogen(j, n),
    decreases j - i,
{
    if i < j {
        lemma_first_hydrogen_monotone(i, j - 1, n);
        assert(first_hydrogen(j, n) == first_hydrogen(j - 1, n) + hydrogens(j - 1, n));
    }
}

/// The linear chain's tables are well formed.
pub proof fn lemma_linear_wf(n: int)
    requires
        0 <= n <= 32767,
    ensures
        graph_wf(linear_view(n)),
{
    let m = linear_view(n);
    lemma_first_hydrogen(n, n);
    lemma_linear_placement(n);
    lemma_placement_distinct(linear_side_chains(n), n);
    assert forall|i: int, j: int|
        0 <= i < m.side_chains.len() && 0 <= j < m.side_chains[i].len() implies #[trigger] m.side_chains[i][j]
        < m.atoms.len() by {
        if i < n {
            lemma_first_hydrogen_monotone(i + 1, n, n);
            lemma_first_hydrogen(i, n);
            assert(first_hydrogen(i + 1, n) == first_hydrogen(i, n) + hydrogens(i, n));
        }
    }
    assert forall|i: int, j1: int, j2: int|
        0 <= i < m.side_chains.len() && 0 <= j1 < j2 < m.side_chains[i].len() implies #[trigger] m.side_chains[i][j1]
        < #[trigger] m.side_chains[i][j2] by {
        if i < n {
            lemma_first_hydrogen_monotone(i + 1, n, n);
            lemma_first_hydrogen(i, n);
            assert(first_hydrogen(i + 1, n) == first_hydrogen(i, n) + hydrogens(i, n));
        }
    }
}

/// Builds compounds: the only writer of a `Compound`'s tables.
#[derive(Debug)]
pub struct CompoundBuilder {
    atoms: Vec<Atom>,
    locations: Vec<Location>,
    backbone: Vec<usize>,
    side_chains: Vec<Vec<usize>>,
}

impl View for CompoundBuilder {
    type V = CompoundView;

    closed spec fn view(&self) -> CompoundView {
        CompoundView {
            atoms: atom_views(self.atoms@),
            locations: self.locations@,
            backbone: self.backbone@,
            side_chains: list_views(self.side_chains@),
        }
    }
}

impl CompoundBuilder {
    #[verifier::type_invariant]
    closed spec fn inv(&self) -> bool {
        graph_wf(self@)
    }

    /// An empty builder.
    pub fn new() -> (r: Self)
        ensures
            r@ == linear_view(0),
    {
        let r = CompoundBuilder {
            atoms: Vec::new(),
            locations: Vec::new(),
            backbone: Vec::new(),
            side_chains: Vec::new(),
        };
        proof {
            lemma_linear_wf(0);
            assert(hydrogen_locations(0, 0) == Seq::<Location>::empty());
            assert(r@.atoms =~= linear_view(0).atoms);
            assert(r@.locations =~= linear_view(0).locations);
            assert(r@.backbone =~= linear_view(0).backbone);
            assert(r@.side_chains =~= linear_view(0).side_chains);
            assert(r@ == linear_view(0));
        }
        r
    }

    /// A compound holding a copy of the builder's tables; the builder is
    /// left as it is and can be used again.
    pub fn build(&mut self) -> (r: Compound)
        ensures
            r@ == old(self)@,
            final(self)@ == old(self)@,
    {
        proof {
            use_type_invariant(&*self);
        }
        let atoms = self.atoms.clone();
        let locations = self.locations.clone();
        let backbone = self.backbone.clone();
        let side_chains = self.side_chains.clone();
        proof {
            assert(atom_views(atoms@) =~= atom_views(self.atoms@));
            assert(locations@ =~= self.locations@);
            assert(backbone@ =~= self.backbone@);
            assert forall|k: int| 0 <= k < side_chains@.len() implies #[trigger] side_chains@[k]@
                == self.side_chains@[k]@ by {
                assert(side_chains@[k]@ =~= self.side_chains@[k]@);
            }
            assert(list_views(side_chains@) =~= list_views(self.side_chains@));
        }
        Compound::new(atoms, locations, backbone, side_chains)
    }

    /// Replaces the builder's contents with the saturated linear hydrocarbon
    /// of `count` carbons (see `linear_view`); an empty compound for 0.
    pub fn linear_chain(&mut self, count: usize) -> (r: Result<&mut Self, CompoundBuilderError>)
        requires
            count <= 32767,
        ensures
            r matches Ok(b) && b@ == linear_view(count as int) && *final(self) == *final(b),
    {
        let mut atoms: Vec<Atom> = Vec::new();
        let mut backbone: Vec<usize> = Vec::new();
        let mut i: usize = 0;
        while i < count
            invariant
                i <= count,
                atoms@.len() == i,
                forall|k: int| 0 <= k < i ==> #[trigger] atoms@[k]@ == carbon_view(),
                backbone@ =~= Seq::new(i as nat, |k: int| k as usize),
            decreases count - i,
        {
            atoms.push(Atom::carbon());
            backbone.push(i);
            i += 1;
        }
        let ghost carbons = atom_views(atoms@);
        assert(carbons =~= Seq::new(count as nat, |k: int| carbon_view()));
        let side_chains = satisfy_backbone_octets(&mut atoms, count);
        proof {
            lemma_first_hydrogen(count as int, count as int);
            assert(atom_views(atoms@) =~= linear_view(count as int).atoms);
        }
        proof {
            lemma_linear_placement(count as int);
            assert(list_views(side_chains@).len() == side_chains@.len());
            assert(backbone@ =~= Seq::new(backbone@.len(), |k: int| k as usize));
        }
        match gen_locations(&backbone, &side_chains) {
            Ok(locations) => {
                proof {
                    lemma_linear_wf(count as int);
                }
                *self = CompoundBuilder { atoms, locations, backbone, side_chains };
                Ok(self)
            },
            Err(e) => Err(e),
        }
    }
}

} // verus!
