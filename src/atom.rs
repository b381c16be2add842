//! Atoms: an element together with neutron and electron counts.

use vstd::prelude::*;
use vstd::string::StringExecFns;
use crate::element::{Element, ELEMENT_COUNT, symbol_of};
use crate::configuration::{Configuration, configuration_of, configuration_text};

verus! {

/// What an atom is, for contracts: its atomic number and its particle counts.
pub struct AtomView {
    pub number: u8,
    pub neutrons: u8,
    pub electrons: u8,
}

/// An atom. Two atoms are equal when they are of the same element, whatever
/// their isotope or charge.
#[derive(Debug)]
pub struct Atom {
    element: Element,
    pub neutrons: u8,
    pub electrons: u8,
}

impl View for Atom {
    type V = AtomView;

    closed spec fn view(&self) -> AtomView {
        AtomView { number: self.element.number, neutrons: self.neutrons, electrons: self.electrons }
    }
}

impl Atom {
    #[verifier::type_invariant]
    closed spec fn inv(&self) -> bool {
        self.element.wf()
    }

    /// A neutral atom with no neutrons of the given element.
    fn of_element(element: Element) -> (r: Self)
        requires
            element.wf(),
        ensures
            r@ == (AtomView { number: element.number, neutrons: 0, electrons: element.number }),
    {
        Atom { electrons: element.number, element, neutrons: 0 }
    }

    pub fn get_element_num(&self) -> (r: u8)
        ensures
            r == self@.number,
    {
        self.element.number
    }

    pub fn electron_count(&self) -> (r: u8)
        ensures
            r == self@.electrons,
    {
        self.electrons
    }

    /// The neutral atom of atomic number `element_num`, if that element exists.
    pub fn new(element_num: u8) -> (r: Option<Self>)
        ensures
            r is Some <==> 1 <= element_num <= ELEMENT_COUNT,
            r matches Some(a) ==> a@ == (AtomView {
                number: element_num,
                neutrons: 0,
                electrons: element_num,
            }),
    {
        match Element::new(element_num) {
            Some(element) => Some(Atom::of_element(element)),
            None => None,
        }
    }

    /// The neutral atom of atomic number `element_num`, which must exist.
    pub fn new_unchecked(element_num: u8) -> (r: Self)
        requires
            1 <= element_num <= ELEMENT_COUNT,
        ensures
            r@ == (AtomView { number: element_num, neutrons: 0, electrons: element_num }),
    {
        Atom::of_element(Element::new_unchecked(element_num))
    }

    /// The neutral atom whose element symbol is `input_str`, if there is one.
    pub fn from_str(input_str: &str) -> (r: Option<Self>)
        ensures
            r matches Some(a) ==> 1 <= a@.number <= ELEMENT_COUNT && symbol_of(a@.number)
                == input_str@ && a@.neutrons == 0 && a@.electrons == a@.number,
            r is None ==> forall|n: u8| 1 <= n <= ELEMENT_COUNT ==> symbol_of(n) != input_str@,
    {
        match Element::from_str(input_str) {
            Some(element) => Some(Atom::of_element(element)),
            None => None,
        }
    }

    /// The neutral atom whose element symbol is `input_str`, which must exist.
    pub fn from_str_unchecked(input_str: &str) -> (r: Self)
        requires
            exists|n: u8| 1 <= n <= ELEMENT_COUNT && symbol_of(n) == input_str@,
        ensures
            1 <= r@.number <= ELEMENT_COUNT,
            symbol_of(r@.number) == input_str@,
            r@.neutrons == 0,
            r@.electrons == r@.number,
    {
        match Element::from_str(input_str) {
            Some(element) => Atom::of_element(element),
            None => {
                proof {
                    let n = choose|n: u8| 1 <= n <= ELEMENT_COUNT && symbol_of(n) == input_str@;
                    assert(symbol_of(n) != input_str@);
                }
                Atom::hydrogen()
            },
        }
    }

    /// The same atom with `neutrons` neutrons.
    pub fn isotope(&self, neutrons: u8) -> (r: Self)
        ensures
            r@ == (AtomView { neutrons, ..self@ }),
    {
        proof {
            use_type_invariant(self);
        }
        Atom { element: self.element, neutrons, electrons: self.electrons }
    }

    pub fn bromine() -> (r: Self)
        ensures
            r@ == (AtomView { number: 35, neutrons: 0, electrons: 35 }),
    {
        Atom::new_unchecked(35)
    }

    pub fn carbon() -> (r: Self)
        ensures
            r@ == (AtomView { number: 6, neutrons: 0, electrons: 6 }),
    {
        Atom::new_unchecked(6)
    }

    pub fn chlorine() -> (r: Self)
        ensures
            r@ == (AtomView { number: 17, neutrons: 0, electrons: 17 }),
    {
        Atom::new_unchecked(17)
    }

    pub fn hydrogen() -> (r: Self)
        ensures
            r@ == (AtomView { number: 1, neutrons: 0, electrons: 1 }),
    {
        Atom::new_unchecked(1).isotope(0)
    }

    pub fn deuterium() -> (r: Self)
        ensures
            r@ == (AtomView { number: 1, neutrons: 1, electrons: 1 }),
    {
        Atom::new_unchecked(1).isotope(1)
    }

    pub fn tritium() -> (r: Self)
        ensures
            r@ == (AtomView { number: 1, neutrons: 2, electrons: 1 }),
    {
        Atom::new_unchecked(1).isotope(2)
    }

    pub fn nitrogen() -> (r: Self)
        ensures
            r@ == (AtomView { number: 7, neutrons: 0, electrons: 7 }),
    {
        Atom::new_unchecked(7)
    }

    /// The ground-state electron configuration of the atom's electrons, as
    /// written.
    pub fn get_config(&self) -> (r: String)
        requires
            self@.electrons <= 120,
        ensures
            r@ == configuration_text(configuration_of(self@.electrons as int)),
    {
        let cfg = Configuration::from_electrons(self.electrons as u32).build();
        cfg.to_string()
    }

    /// The element's symbol.
    pub fn to_string(&self) -> (r: String)
        ensures
            r@ == symbol_of(self@.number),
    {
        proof {
            use_type_invariant(self);
        }
        String::from_str(self.element.as_str())
    }
}

impl Clone for Atom {
    fn clone(&self) -> (r: Self)
        ensures
            r@ == self@,
    {
        proof {
            use_type_invariant(self);
        }
        Atom { element: self.element, neutrons: self.neutrons, electrons: self.electrons }
    }
}

impl PartialEq for Atom {
    fn eq(&self, other: &Atom) -> (r: bool)
        ensures
            r == (self@.number == other@.number),
    {
        self.element.number == other.element.number
    }
}

impl vstd::std_specs::cmp::PartialEqSpecImpl for Atom {
    open spec fn obeys_eq_spec() -> bool {
        true
    }

    open spec fn eq_spec(&self, other: &Atom) -> bool {
        self@.number == other@.number
    }
}

} // verus!
