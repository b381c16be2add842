//! Chemical elements: atomic numbers and their symbols.

use vstd::prelude::*;

verus! {

/// Number of elements in the periodic table.
pub const ELEMENT_COUNT: u8 = 118;

/// Symbol of the element with atomic number `n`; empty outside 1..=118.
pub open spec fn symbol_of(n: u8) -> Seq<char> {
    match n {
        1 => "H"@,
        2 => "He"@,
        3 => "Li"@,
        4 => "Be"@,
        5 => "B"@,
        6 => "C"@,
        7 => "N"@,
        8 => "O"@,
        9 => "F"@,
        10 => "Ne"@,
        11 => "Na"@,
        12 => "Mg"@,
        13 => "Al"@,
        14 => "Si"@,
        15 => "P"@,
        16 => "S"@,
        17 => "Cl"@,
        18 => "Ar"@,
        19 => "K"@,
        20 => "Ca"@,
        21 => "Sc"@,
        22 => "Ti"@,
        23 => "V"@,
        24 => "Cr"@,
        25 => "Mn"@,
        26 => "Fe"@,
        27 => "Co"@,
        28 => "Ni"@,
        29 => "Cu"@,
        30 => "Zn"@,
        31 => "Ga"@,
        32 => "Ge"@,
        33 => "As"@,
        34 => "Se"@,
        35 => "Br"@,
        36 => "Kr"@,
        37 => "Rb"@,
        38 => "Sr"@,
        39 => "Y"@,
        40 => "Zr"@,
        41 => "Nb"@,
        42 => "Mo"@,
        43 => "Tc"@,
        44 => "Ru"@,
        45 => "Rh"@,
        46 => "Pd"@,
        47 => "Ag"@,
        48 => "Cd"@,
        49 => "In"@,
        50 => "Sn"@,
        51 => "Sb"@,
        52 => "Te"@,
        53 => "I"@,
        54 => "Xe"@,
        55 => "Cs"@,
        56 => "Ba"@,
        57 => "La"@,
        58 => "Ce"@,
        59 => "Pr"@,
        60 => "Nd"@,
        61 => "Pm"@,
        62 => "Sm"@,
        63 => "Eu"@,
        64 => "Gd"@,
        65 => "Tb"@,
        66 => "Dy"@,
        67 => "Ho"@,
        68 => "Er"@,
        69 => "Tm"@,
        70 => "Yb"@,
        71 => "Lu"@,
        72 => "Hf"@,
        73 => "Ta"@,
        74 => "W"@,
        75 => "Re"@,
        76 => "Os"@,
        77 => "Ir"@,
        78 => "Pt"@,
        79 => "Au"@,
        80 => "Hg"@,
        81 => "Tl"@,
        82 => "Pb"@,
        83 => "Bi"@,
        84 => "Po"@,
        85 => "At"@,
        86 => "Rn"@,
        87 => "Fr"@,
        88 => "Ra"@,
        89 => "Ac"@,
        90 => "Th"@,
        91 => "Pa"@,
        92 => "U"@,
        93 => "Np"@,
        94 => "Pu"@,
        95 => "Am"@,
        96 => "Cm"@,
        97 => "Bk"@,
        98 => "Cf"@,
        99 => "Es"@,
        100 => "Fm"@,
        101 => "Md"@,
        102 => "No"@,
        103 => "Lr"@,
        104 => "Rf"@,
        105 => "Db"@,
        106 => "Sg"@,
        107 => "Bh"@,
        108 => "Hs"@,
        109 => "Mt"@,
        110 => "Ds"@,
        111 => "Rg"@,
        112 => "Cn"@,
        113 => "Nh"@,
        114 => "Fl"@,
        115 => "Mc"@,
        116 => "Lv"@,
        117 => "Ts"@,
        118 => "Og"@,
        _ => Seq::empty(),
    }
}

/// The symbol of element `n`, from the fixed table.
pub fn symbol(n: u8) -> (r: &'static str)
    requires
        1 <= n <= ELEMENT_COUNT,
    ensures
        r@ == symbol_of(n),
{
    match n {
        1 => "H",
        2 => "He",
        3 => "Li",
        4 => "Be",
        5 => "B",
        6 => "C",
        7 => "N",
        8 => "O",
        9 => "F",
        10 => "Ne",
        11 => "Na",
        12 => "Mg",
        13 => "Al",
        14 => "Si",
        15 => "P",
        16 => "S",
        17 => "Cl",
        18 => "Ar",
        19 => "K",
        20 => "Ca",
        21 => "Sc",
        22 => "Ti",
        23 => "V",
        24 => "Cr",
        25 => "Mn",
        26 => "Fe",
        27 => "Co",
        28 => "Ni",
        29 => "Cu",
        30 => "Zn",
        31 => "Ga",
        32 => "Ge",
        33 => "As",
        34 => "Se",
        35 => "Br",
        36 => "Kr",
        37 => "Rb",
        38 => "Sr",
        39 => "Y",
        40 => "Zr",
        41 => "Nb",
        42 => "Mo",
        43 => "Tc",
        44 => "Ru",
        45 => "Rh",
        46 => "Pd",
        47 => "Ag",
        48 => "Cd",
        49 => "In",
        50 => "Sn",
        51 => "Sb",
        52 => "Te",
        53 => "I",
        54 => "Xe",
        55 => "Cs",
        56 => "Ba",
        57 => "La",
        58 => "Ce",
        59 => "Pr",
        60 => "Nd",
        61 => "Pm",
        62 => "Sm",
        63 => "Eu",
        64 => "Gd",
        65 => "Tb",
        66 => "Dy",
        67 => "Ho",
        68 => "Er",
        69 => "Tm",
        70 => "Yb",
        71 => "Lu",
        72 => "Hf",
        73 => "Ta",
        74 => "W",
        75 => "Re",
        76 => "Os",
        77 => "Ir",
        78 => "Pt",
        79 => "Au",
        80 => "Hg",
        81 => "Tl",
        82 => "Pb",
        83 => "Bi",
        84 => "Po",
        85 => "At",
        86 => "Rn",
        87 => "Fr",
        88 => "Ra",
        89 => "Ac",
        90 => "Th",
        91 => "Pa",
        92 => "U",
        93 => "Np",
        94 => "Pu",
        95 => "Am",
        96 => "Cm",
        97 => "Bk",
        98 => "Cf",
        99 => "Es",
        100 => "Fm",
        101 => "Md",
        102 => "No",
        103 => "Lr",
        104 => "Rf",
        105 => "Db",
        106 => "Sg",
        107 => "Bh",
        108 => "Hs",
        109 => "Mt",
        110 => "Ds",
        111 => "Rg",
        112 => "Cn",
        113 => "Nh",
        114 => "Fl",
        115 => "Mc",
        116 => "Lv",
        117 => "Ts",
        118 => "Og",
        _ => "Og",
    }
}

/// Whether two texts are equal, character by character.
fn same_text(a: &str, b: &str) -> (r: bool)
    ensures
        r == (a@ == b@),
{
    let n = a.unicode_len();
    if n != b.unicode_len() {
        return false;
    }
    let mut i: usize = 0;
    while i < n
        invariant
            n == a@.len(),
            n == b@.len(),
            i <= n,
            forall|j: int| 0 <= j < i ==> a@[j] == b@[j],
        decreases n - i,
    {
        if a.get_char(i) != b.get_char(i) {
            return false;
        }
        i += 1;
    }
    assert(a@ =~= b@);
    true
}

/// An element, identified by its atomic number.
#[derive(Clone, Copy, Debug, PartialEq, Eq, Structural)]
pub struct Element {
    pub number: u8,
}

impl Element {
    /// Well formed: the atomic number lies in 1..=118.
    pub open spec fn wf(&self) -> bool {
        1 <= self.number <= ELEMENT_COUNT
    }

    /// The element of atomic number `number`, if there is one.
    pub fn new(number: u8) -> (r: Option<Self>)
        ensures
            r is Some <==> 1 <= number <= ELEMENT_COUNT,
            r matches Some(e) ==> e.number == number,
    {
        if number != 0 && number <= ELEMENT_COUNT {
            Some(Element { number })
        } else {
            None
        }
    }

    /// The element whose symbol is `input_str`, if there is one.
    pub fn from_str(input_str: &str) -> (r: Option<Self>)
        ensures
            r matches Some(e) ==> e.wf() && symbol_of(e.number) == input_str@,
            r is None ==> forall|n: u8| 1 <= n <= ELEMENT_COUNT ==> symbol_of(n) != input_str@,
    {
        let mut n: u8 = 1;
        while n <= ELEMENT_COUNT
            invariant
                1 <= n <= ELEMENT_COUNT + 1,
                forall|k: u8| 1 <= k < n ==> symbol_of(k) != input_str@,
            decreases ELEMENT_COUNT + 1 - n,
        {
            if same_text(symbol(n), input_str) {
                return Some(Element { number: n });
            }
            n += 1;
        }
        None
    }

    /// The element of atomic number `number`, which must exist.
    pub fn new_unchecked(number: u8) -> (r: Self)
        requires
            1 <= number <= ELEMENT_COUNT,
        ensures
            r.number == number,
    {
        Element { number }
    }

    pub fn hydrogen() -> (r: Self)
        ensures
            r.number == 1,
    {
        Element::new_unchecked(1)
    }

    pub fn carbon() -> (r: Self)
        ensures
            r.number == 6,
    {
        Element::new_unchecked(6)
    }

    /// The element's symbol.
    pub fn as_str(&self) -> (r: &'static str)
        requires
            self.wf(),
        ensures
            r@ == symbol_of(self.number),
    {
        symbol(self.number)
    }
}

} // verus!
