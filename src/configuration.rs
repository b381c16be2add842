//! Ground-state electron configurations, filled subshell by subshell along
//! the diagonal rule.

use itertools::Itertools;
use vstd::prelude::*;
use vstd::string::StringExecFns;
use crate::atom::Atom;
use crate::numeral::{decimal, push_decimal};

verus! {

/// Subshell letter, by azimuthal quantum number 0 to 3.
#[derive(Clone, Copy, Debug, PartialEq, Eq, Hash, Structural)]
pub enum Orbital {
    S,
    P,
    D,
    F,
}

/// The letter of azimuthal number `l` (f for 3 and above).
pub open spec fn orbital_of(l: u32) -> Orbital {
    if l == 0 {
        Orbital::S
    } else if l == 1 {
        Orbital::P
    } else if l == 2 {
        Orbital::D
    } else {
        Orbital::F
    }
}

pub open spec fn angular_of(o: Orbital) -> u32 {
    match o {
        Orbital::S => 0,
        Orbital::P => 1,
        Orbital::D => 2,
        Orbital::F => 3,
    }
}

pub open spec fn letter_of(o: Orbital) -> Seq<char> {
    match o {
        Orbital::S => seq!['s'],
        Orbital::P => seq!['p'],
        Orbital::D => seq!['d'],
        Orbital::F => seq!['f'],
    }
}

impl Orbital {
    /// The subshell letter.
    pub fn letter(&self) -> (r: &'static str)
        ensures
            r@ == letter_of(*self),
    {
        proof {
            reveal_strlit("s");
            reveal_strlit("p");
            reveal_strlit("d");
            reveal_strlit("f");
        }
        match self {
            Orbital::S => "s",
            Orbital::P => "p",
            Orbital::D => "d",
            Orbital::F => "f",
        }
    }

    /// The azimuthal quantum number.
    pub fn angular(&self) -> (r: u32)
        ensures
            r == angular_of(*self),
    {
        match self {
            Orbital::S => 0,
            Orbital::P => 1,
            Orbital::D => 2,
            Orbital::F => 3,
        }
    }
}

/// A subshell: principal number `n`, azimuthal number `l` with its letter,
/// how many electrons it holds at most and how many it holds.
#[derive(Clone, Copy, Debug, PartialEq, Eq, Structural)]
pub struct Subshell {
    pub n: u32,
    pub l: u32,
    pub l_name: Orbital,
    pub capacity: u32,
    pub current: u32,
}

/// The empty subshell `n`,`l`.
pub open spec fn empty_subshell(n: u32, l: u32) -> Subshell {
    Subshell { n, l, l_name: orbital_of(l), capacity: (4 * l + 2) as u32, current: 0 }
}

/// The empty subshell `n`,`l`, for `l` up to 3 (f).
pub open spec fn subshell_of(n: u32, l: u32) -> Option<Subshell> {
    if l <= 3 {
        Some(empty_subshell(n, l))
    } else {
        None
    }
}

/// Start of the next diagonal after subshell `n`,`l`: one shell up when the
/// shell has no higher `l`, else the next `l` of the same shell, never past f.
pub open spec fn next_of(n: u32, l: u32) -> Option<Subshell> {
    if n - l - 1 == 0 {
        subshell_of((n + 1) as u32, l)
    } else if l == 3 {
        None
    } else {
        subshell_of(n, (l + 1) as u32)
    }
}

impl Subshell {
    /// The empty 1s subshell.
    pub fn one_s() -> (r: Self)
        ensures
            r == empty_subshell(1, 0),
    {
        Self { n: 1, l: 0, l_name: Orbital::S, capacity: 2, current: 0 }
    }

    /// The empty subshell `n`,`l`, if `l` names one of s, p, d, f.
    pub fn generate_subshell(n: u32, l: u32) -> (r: Option<Self>)
        ensures
            r == subshell_of(n, l),
    {
        if l > 3 {
            return None;
        }
        let orbital = if l == 0 {
            Orbital::S
        } else if l == 1 {
            Orbital::P
        } else if l == 2 {
            Orbital::D
        } else {
            Orbital::F
        };
        Some(Self { n, l, l_name: orbital, capacity: 4 * l + 2, current: 0 })
    }

    /// The start of the next diagonal of the filling order.
    pub fn get_next(&self) -> (r: Option<Self>)
        requires
            self.l < self.n < u32::MAX,
        ensures
            r == next_of(self.n, self.l),
    {
        let remaining = self.n - self.l - 1;
        if remaining == 0 {
            Self::generate_subshell(self.n + 1, self.l)
        } else if self.l == 3 {
            None
        } else {
            Self::generate_subshell(self.n, self.l + 1)
        }
    }

    /// Room left for electrons.
    fn get_space(&self) -> (r: u32)
        requires
            self.current <= self.capacity,
        ensures
            r == self.capacity - self.current,
    {
        self.capacity - self.current
    }

    /// Adds `amount` electrons, or as many as there is room for.
    fn fill_by(&mut self, amount: u32)
        requires
            old(self).current <= old(self).capacity,
        ensures
            *final(self) == (Subshell {
                current: (old(self).current + if amount <= old(self).capacity - old(self).current {
                    amount as int
                } else {
                    old(self).capacity - old(self).current
                }) as u32,
                ..*old(self)
            }),
    {
        let space = self.get_space();
        if space == 0 {
            return;
        } else if space >= amount {
            self.current += amount;
        } else {
            self.current += space;
        }
    }

    /// Takes `amount` electrons away, or all there are.
    fn remove_by(&mut self, amount: u32)
        ensures
            *final(self) == (Subshell {
                current: if amount > old(self).current {
                    0
                } else {
                    (old(self).current - amount) as u32
                },
                ..*old(self)
            }),
    {
        if amount > self.current {
            self.current = 0;
        } else {
            self.current -= amount;
        }
    }
}


/// Principal number of the `k`-th subshell in filling order (the diagonal
/// rule: 1s 2s 2p 3s 3p 4s 3d 4p 5s 4d 5p 6s 4f 5d 6p 7s 5f 6d 7p 8s).
pub open spec fn order_n(k: int) -> u32 {
    if k == 0 {
        1
    } else if k == 1 {
        2
    } else if k == 2 {
        2
    } else if k == 3 {
        3
    } else if k == 4 {
        3
    } else if k == 5 {
        4
    } else if k == 6 {
        3
    } else if k == 7 {
        4
    } else if k == 8 {
        5
    } else if k == 9 {
        4
    } else if k == 10 {
        5
    } else if k == 11 {
        6
    } else if k == 12 {
        4
    } else if k == 13 {
        5
    } else if k == 14 {
        6
    } else if k == 15 {
        7
    } else if k == 16 {
        5
    } else if k == 17 {
        6
    } else if k == 18 {
        7
    } else if k == 19 {
        8
    } else {
        0
    }
}

/// Azimuthal number of the `k`-th subshell in filling order.
pub open spec fn order_l(k: int) -> u32 {
    if k == 0 {
        0
    } else if k == 1 {
        0
    } else if k == 2 {
        1
    } else if k == 3 {
        0
    } else if k == 4 {
        1
    } else if k == 5 {
        0
    } else if k == 6 {
        2
    } else if k == 7 {
        1
    } else if k == 8 {
        0
    } else if k == 9 {
        2
    } else if k == 10 {
        1
    } else if k == 11 {
        0
    } else if k == 12 {
        3
    } else if k == 13 {
        2
    } else if k == 14 {
        1
    } else if k == 15 {
        0
    } else if k == 16 {
        3
    } else if k == 17 {
        2
    } else if k == 18 {
        1
    } else if k == 19 {
        0
    } else {
        0
    }
}

/// Electrons held by the first `k` subshells in filling order when full.
pub open spec fn filled_before(k: int) -> int {
    if k == 0 {
        0
    } else if k == 1 {
        2
    } else if k == 2 {
        4
    } else if k == 3 {
        10
    } else if k == 4 {
        12
    } else if k == 5 {
        18
    } else if k == 6 {
        20
    } else if k == 7 {
        30
    } else if k == 8 {
        36
    } else if k == 9 {
        38
    } else if k == 10 {
        48
    } else if k == 11 {
        54
    } else if k == 12 {
        56
    } else if k == 13 {
        70
    } else if k == 14 {
        80
    } else if k == 15 {
        86
    } else if k == 16 {
        88
    } else if k == 17 {
        102
    } else if k == 18 {
        112
    } else if k == 19 {
        118
    } else if k == 20 {
        120
    } else {
        0
    }
}

/// The `k`-th subshell in filling order, holding `current` electrons.
pub open spec fn order_subshell(k: int, current: u32) -> Subshell {
    Subshell { current, ..empty_subshell(order_n(k), order_l(k)) }
}

/// How many subshells the filling order takes for `e` electrons: at least
/// one, then up to the first that brings the total to `e`.
pub open spec fn needed_from(e: int, k: int) -> int
    decreases 19 - k,
{
    if k >= 19 || filled_before(k + 1) >= e {
        k + 1
    } else {
        needed_from(e, k + 1)
    }
}

pub open spec fn shells_needed(e: int) -> int {
    needed_from(e, 0)
}

/// Filling along the diagonal rule: each subshell full but the last, which
/// takes what is left.
pub open spec fn aufbau(e: int) -> Seq<Subshell> {
    Seq::new(
        shells_needed(e) as nat,
        |k: int|
            if k + 1 < shells_needed(e) {
                order_subshell(k, (4 * order_l(k) + 2) as u32)
            } else {
                order_subshell(k, (e - filled_before(k)) as u32)
            },
    )
}

/// The first `k` subshells in filling order, all full.
pub open spec fn full_prefix(k: int) -> Seq<Subshell> {
    Seq::new(k as nat, |j: int| order_subshell(j, (4 * order_l(j) + 2) as u32))
}

/// The diagonals of the filling order start at these positions.
pub open spec fn diagonal_start(k: int) -> bool {
    k == 0 || k == 1 || k == 2 || k == 4 || k == 6 || k == 9 || k == 12 || k == 16
}

pub proof fn lemma_order(k: int)
    requires
        0 <= k < 20,
    ensures
        order_l(k) <= 3,
        order_l(k) < order_n(k) <= 8,
        filled_before(k + 1) == filled_before(k) + 4 * order_l(k) + 2,
        0 <= filled_before(k),
        filled_before(20) == 120,
{
}

pub proof fn lemma_filled_monotone(i: int, j: int)
    requires
        0 <= i <= j <= 20,
    ensures
        filled_before(i) <= filled_before(j),
    decreases j - i,
{
    if i < j {
        lemma_filled_monotone(i, j - 1);
        lemma_order(j - 1);
    }
}

/// A diagonal starting at `k` runs down to l = 0, one shell up at each
/// step; the next diagonal starts right after it, as `next_of` says.
pub proof fn lemma_diagonal(k: int)
    requires
        diagonal_start(k),
    ensures
        forall|j: int|
            0 <= j <= order_l(k) ==> order_n(k + j) == order_n(k) + j && #[trigger] order_l(k + j)
                == order_l(k) - j,
        k == 16 ==> k + order_l(k) + 1 == 20 && next_of(order_n(k), order_l(k)) is None,
        k != 16 ==> diagonal_start(k + order_l(k) + 1) && next_of(order_n(k), order_l(k)) == Some(
            empty_subshell(order_n(k + order_l(k) + 1), order_l(k + order_l(k) + 1)),
        ),
{
}

/// `e` electrons take the subshells up to position `k` when the first `k`
/// hold fewer and the first `k + 1` hold enough.
pub proof fn lemma_needed(e: int, k: int)
    requires
        0 <= k < 20,
        0 <= e,
        k == 0 || filled_before(k) < e,
        e <= filled_before(k + 1),
    ensures
        shells_needed(e) == k + 1,
{
    lemma_needed_from(e, k, 0);
}

pub proof fn lemma_needed_from(e: int, k: int, j: int)
    requires
        0 <= j <= k < 20,
        0 <= e,
        k == 0 || filled_before(k) < e,
        e <= filled_before(k + 1),
    ensures
        needed_from(e, j) == k + 1,
    decreases k - j,
{
    if j < k {
        lemma_filled_monotone(j + 1, k);
        lemma_needed_from(e, k, j + 1);
    }
}

/// The filling for `e` electrons: the first `k` subshells full and the next
/// one holding the rest.
pub proof fn lemma_aufbau_last(e: int, k: int)
    requires
        0 <= k < 20,
        0 <= e,
        k == 0 || filled_before(k) < e,
        e <= filled_before(k + 1),
    ensures
        aufbau(e) == full_prefix(k).push(order_subshell(k, (e - filled_before(k)) as u32)),
{
    lemma_needed(e, k);
    assert(aufbau(e) =~= full_prefix(k).push(order_subshell(k, (e - filled_before(k)) as u32)));
}

/// Index of the first subshell `n`,`l` in `v` from `i` on, or -1.
pub open spec fn first_index(v: Seq<Subshell>, n: u32, l: u32, i: int) -> int
    decreases v.len() - i,
{
    if i >= v.len() || i < 0 {
        -1
    } else if v[i].n == n && v[i].l == l {
        i
    } else {
        first_index(v, n, l, i + 1)
    }
}

pub proof fn lemma_first_index(v: Seq<Subshell>, n: u32, l: u32, i: int)
    requires
        0 <= i,
    ensures
        first_index(v, n, l, i) == -1 || (i <= first_index(v, n, l, i) < v.len() && v[first_index(
            v,
            n,
            l,
            i,
        )].n == n && v[first_index(v, n, l, i)].l == l),
    decreases v.len() - i,
{
    if i < v.len() && !(v[i].n == n && v[i].l == l) {
        lemma_first_index(v, n, l, i + 1);
    }
}

pub open spec fn removed(s: Subshell, a: u32) -> Subshell {
    Subshell { current: if a > s.current { 0 } else { (s.current - a) as u32 }, ..s }
}

pub open spec fn added(s: Subshell, a: u32) -> Subshell {
    Subshell {
        current: (s.current + if a <= s.capacity - s.current {
            a as int
        } else {
            s.capacity - s.current
        }) as u32,
        ..s
    }
}

/// Moves `a` electrons from subshell `n1`,`l1` to subshell `n2`,`l2`, where
/// they are found.
pub open spec fn transfer_spec(v: Seq<Subshell>, a: u32, n1: u32, l1: u32, n2: u32, l2: u32) -> Seq<
    Subshell,
> {
    let i = first_index(v, n1, l1, 0);
    if i < 0 {
        v
    } else {
        let v1 = v.update(i, removed(v[i], a));
        let j = first_index(v1, n2, l2, 0);
        if j < 0 {
            v1
        } else {
            v1.update(j, added(v1[j], a))
        }
    }
}

/// The known exceptions to the diagonal rule, where an s subshell gives
/// electrons to the d subshell below it (chromium, copper, and the like).
pub open spec fn with_exceptions(v: Seq<Subshell>, e: int) -> Seq<Subshell> {
    if e == 24 || e == 29 {
        transfer_spec(v, 1, 4, 0, 3, 2)
    } else if e == 41 || e == 42 || e == 44 || e == 45 || e == 47 {
        transfer_spec(v, 1, 5, 0, 4, 2)
    } else if e == 46 {
        transfer_spec(v, 2, 5, 0, 4, 2)
    } else if e == 78 || e == 79 {
        transfer_spec(v, 1, 6, 0, 5, 2)
    } else {
        v
    }
}

/// The ground-state configuration of `e` electrons.
pub open spec fn configuration_of(e: int) -> Seq<Subshell> {
    with_exceptions(aufbau(e), e)
}

/// No subshell holds more than it can.
pub open spec fn within_capacity(v: Seq<Subshell>) -> bool {
    forall|i: int| 0 <= i < v.len() ==> #[trigger] v[i].current <= v[i].capacity
}

/// A configuration: its subshells in filling order and its electron count.
#[derive(Debug)]
pub struct Configuration {
    pub vec: Vec<Subshell>,
    pub electrons: u32,
}

impl Configuration {
    /// An unfilled configuration for a neutral atom of `electrons` electrons.
    pub fn from_electrons(electrons: u32) -> (r: Self)
        ensures
            r.vec@.len() == 0,
            r.electrons == electrons,
    {
        Self { vec: Vec::new(), electrons }
    }

    /// An unfilled configuration for the electrons of `atom`.
    pub fn from_atom(atom: &Atom) -> (r: Self)
        ensures
            r.vec@.len() == 0,
            r.electrons == atom@.electrons,
    {
        Self { vec: Vec::new(), electrons: atom.electron_count() as u32 }
    }

    /// Position of the first subshell `n` of letter `orbital`.
    fn get_subshell(&self, n: u32, orbital: Orbital) -> (r: Option<usize>)
        ensures
            match r {
                Some(i) => first_index(self.vec@, n, angular_of(orbital), 0) == i,
                None => first_index(self.vec@, n, angular_of(orbital), 0) == -1,
            },
    {
        let l = orbital.angular();
        let mut i: usize = 0;
        while i < self.vec.len()
            invariant
                l == angular_of(orbital),
                i <= self.vec@.len(),
                first_index(self.vec@, n, l, 0) == first_index(self.vec@, n, l, i as int),
            decreases self.vec.len() - i,
        {
            if self.vec[i].n == n && self.vec[i].l == l {
                return Some(i);
            }
            i += 1;
        }
        None
    }

    /// Moves `electrons` electrons from subshell `lhs` to subshell `rhs`,
    /// where they are found.
    fn transfer(&mut self, electrons: u32, lhs: (u32, Orbital), rhs: (u32, Orbital))
        requires
            within_capacity(old(self).vec@),
        ensures
            final(self).vec@ == transfer_spec(
                old(self).vec@,
                electrons,
                lhs.0,
                angular_of(lhs.1),
                rhs.0,
                angular_of(rhs.1),
            ),
            final(self).electrons == old(self).electrons,
            within_capacity(final(self).vec@),
    {
        let i = match self.get_subshell(lhs.0, lhs.1) {
            Some(i) => i,
            None => return,
        };
        proof {
            lemma_first_index(self.vec@, lhs.0, angular_of(lhs.1), 0);
        }
        let mut four_s = self.vec[i];
        four_s.remove_by(electrons);
        self.vec.set(i, four_s);
        let j = match self.get_subshell(rhs.0, rhs.1) {
            Some(j) => j,
            None => return,
        };
        proof {
            lemma_first_index(self.vec@, rhs.0, angular_of(rhs.1), 0);
        }
        let mut three_d = self.vec[j];
        three_d.fill_by(electrons);
        self.vec.set(j, three_d);
    }

    fn handle_exception(&mut self)
        requires
            within_capacity(old(self).vec@),
        ensures
            final(self).vec@ == with_exceptions(old(self).vec@, old(self).electrons as int),
            final(self).electrons == old(self).electrons,
    {
        let e = self.electrons;
        if e == 24 || e == 29 {
            self.transfer(1, (4, Orbital::S), (3, Orbital::D));
        } else if e == 41 || e == 42 || e == 44 || e == 45 || e == 47 {
            self.transfer(1, (5, Orbital::S), (4, Orbital::D));
        } else if e == 46 {
            self.transfer(2, (5, Orbital::S), (4, Orbital::D));
        } else if e == 78 || e == 79 {
            self.transfer(1, (6, Orbital::S), (5, Orbital::D));
        }
    }
}

impl Configuration {
    /// Fills subshells diagonal by diagonal, each as far as the electrons
    /// left allow, then applies the known exceptions; returns a copy of the
    /// result, which also stays in `self`.
    pub fn build(&mut self) -> (r: Self)
        requires
            old(self).electrons <= 120,
        ensures
            final(self).electrons == old(self).electrons,
            final(self).vec@ == configuration_of(old(self).electrons as int),
            r.electrons == old(self).electrons,
            r.vec@ == configuration_of(old(self).electrons as int),
    {
        let e = self.electrons;
        let ghost ei = e as int;
        let mut queue: Option<Subshell> = Some(Subshell::one_s());
        let mut vec: Vec<Subshell> = Vec::new();
        let mut amount_left: u32 = e;
        let ghost mut k: int = 0;
        proof {
            lemma_order(0);
            assert(vec@ =~= full_prefix(0));
        }
        while queue.is_some()
            invariant
                e <= 120,
                ei == e,
                within_capacity(vec@),
                queue matches Some(f) ==> {
                    &&& 0 <= k < 20
                    &&& diagonal_start(k)
                    &&& f == empty_subshell(order_n(k), order_l(k))
                    &&& vec@ == full_prefix(k)
                    &&& amount_left == ei - filled_before(k)
                    &&& (k == 0 || amount_left > 0)
                },
                queue is None ==> vec@ == aufbau(ei),
            decreases (if queue is Some {
                21 - k
            } else {
                0
            }),
        {
            let mut front = queue.unwrap();
            queue = None;
            proof {
                lemma_order(k);
                lemma_diagonal(k);
                lemma_filled_monotone(k, 20);
            }
            front.fill_by(amount_left);
            amount_left -= front.current;
            if amount_left == 0 {
                vec.push(front);
                proof {
                    lemma_aufbau_last(ei, k);
                    assert(vec@ =~= full_prefix(k).push(
                        order_subshell(k, (ei - filled_before(k)) as u32),
                    ));
                }
            } else {
                let l = front.l;
                let mut new_n = front.n;
                let last = front.get_next();
                vec.push(front);
                proof {
                    assert(vec@ =~= full_prefix(k + 1));
                }
                let mut new_l: u32 = l;
                while new_l > 0 && amount_left != 0
                    invariant
                        e <= 120,
                        ei == e,
                        0 <= k < 20,
                        diagonal_start(k),
                        l == order_l(k),
                        l <= 3,
                        new_l <= l,
                        new_n == order_n(k) + (l - new_l),
                        k + 1 + (l - new_l) <= 20,
                        within_capacity(vec@),
                        forall|j: int|
                            0 <= j <= order_l(k) ==> order_n(k + j) == order_n(k) + j
                                && #[trigger] order_l(k + j) == order_l(k) - j,
                        amount_left > 0 ==> vec@ == full_prefix(k + 1 + (l - new_l))
                            && amount_left == ei - filled_before(k + 1 + (l - new_l)),
                        amount_left == 0 ==> vec@ == aufbau(ei),
                    decreases new_l,
                {
                    let ghost q = k + 1 + (l - new_l);
                    proof {
                        assert(order_l(k + (q - k)) == order_l(k) - (q - k));
                        lemma_order(q);
                        lemma_filled_monotone(q, 20);
                        lemma_filled_monotone(k + 1, q);
                    }
                    new_l -= 1;
                    new_n += 1;
                    let mut subshell = match Subshell::generate_subshell(new_n, new_l) {
                        Some(s) => s,
                        None => {
                            return Self { vec: Vec::new(), electrons: e };
                        },
                    };
                    subshell.fill_by(amount_left);
                    amount_left -= subshell.current;
                    vec.push(subshell);
                    proof {
                        if amount_left == 0 {
                            lemma_aufbau_last(ei, q);
                            assert(vec@ =~= full_prefix(q).push(
                                order_subshell(q, (ei - filled_before(q)) as u32),
                            ));
                        } else {
                            assert(vec@ =~= full_prefix(q + 1));
                        }
                    }
                }
                if amount_left != 0 {
                    proof {
                        assert(new_l == 0);
                        if k == 16 {
                            assert(filled_before(20) == 120);
                        }
                    }
                    queue = match last {
                        Some(s) => Some(s),
                        None => None,
                    };
                    proof {
                        k = k + l + 1;
                    }
                }
            }
        }
        self.vec = vec;
        self.handle_exception();
        let copy = self.vec.clone();
        proof {
            assert(copy@ =~= self.vec@);
        }
        Self { vec: copy, electrons: self.electrons }
    }
}

/// Texts joined with one space between neighbours.
pub open spec fn spaced(s: Seq<Seq<char>>) -> Seq<char>
    decreases s.len(),
{
    if s.len() == 0 {
        Seq::empty()
    } else if s.len() == 1 {
        s[0]
    } else {
        spaced(s.drop_last()) + seq![' '] + s.last()
    }
}

pub open spec fn string_views(s: Seq<String>) -> Seq<Seq<char>> {
    s.map_values(|x: String| x@)
}

/// Relies on itertools' `Itertools::join` with separator " ": each string
/// written as it is, one space between neighbours, empty for no strings.
#[verifier::external_body]
fn join_with_spaces(parts: &Vec<String>) -> (r: String)
    ensures
        r@ == spaced(string_views(parts@)),
{
    parts.iter().join(" ")
}

/// How one subshell is written: principal number, letter, electrons held.
pub open spec fn subshell_text(s: Subshell) -> Seq<char> {
    decimal(s.n as nat) + letter_of(s.l_name) + decimal(s.current as nat)
}

/// How a configuration is written: its subshells, space separated.
pub open spec fn configuration_text(v: Seq<Subshell>) -> Seq<char> {
    spaced(Seq::new(v.len(), |i: int| subshell_text(v[i])))
}

impl Subshell {
    /// The subshell as written in a configuration, such as `3d5`.
    pub fn to_string(&self) -> (r: String)
        ensures
            r@ == subshell_text(*self),
    {
        let mut out = String::new();
        push_decimal(&mut out, self.n as usize);
        out.append(self.l_name.letter());
        push_decimal(&mut out, self.current as usize);
        assert(out@ =~= subshell_text(*self));
        out
    }
}

impl Configuration {
    /// The configuration as written, such as `1s2 2s2 2p2`.
    pub fn to_string(&self) -> (r: String)
        ensures
            r@ == configuration_text(self.vec@),
    {
        let mut parts: Vec<String> = Vec::new();
        let mut i: usize = 0;
        while i < self.vec.len()
            invariant
                i <= self.vec@.len(),
                parts@.len() == i,
                forall|j: int| 0 <= j < i ==> #[trigger] parts@[j]@ == subshell_text(self.vec@[j]),
            decreases self.vec.len() - i,
        {
            parts.push(self.vec[i].to_string());
            i += 1;
        }
        let r = join_with_spaces(&parts);
        proof {
            assert(string_views(parts@) =~= Seq::new(
                self.vec@.len(),
                |i: int| subshell_text(self.vec@[i]),
            ));
        }
        r
    }
}

} // verus!
