use vstd::prelude::*;
use crate::errors::Error;

verus! {

/// A raw symbol, as it appears in user input (for DNA: an ASCII base).
pub type AlphabetChar = u8;

/// A dense symbol index in `[0, sigma)`.
pub type AlphabetIndex = u8;

/// A finite ordered alphabet: a bijection between a small set of byte
/// symbols and the dense indices `[0, sigma)`.  Index 0 doubles as the
/// sentinel slot of the Burrows-Wheeler transform.
pub trait Alphabet: core::default::Default + Sized {
    /// Number of symbols in the alphabet.
    spec fn sigma() -> int;

    /// The symbol carried by a dense index.
    spec fn char_of(i: int) -> AlphabetChar;

    /// Whether a byte belongs to the alphabet.
    spec fn valid_char(c: AlphabetChar) -> bool;

    /// The dense index of a valid byte.
    spec fn index_of(c: AlphabetChar) -> int;

    /// Width in bits of a dense index.
    spec fn bits_spec() -> int;

    /// The maps `char_of` and `index_of` are inverse bijections between
    /// `[0, sigma)` and the valid bytes.
    proof fn alphabet_facts()
        ensures
            1 <= Self::sigma() <= 256,
            forall|i: int|
                0 <= i < Self::sigma() ==> Self::valid_char(#[trigger] Self::char_of(i))
                    && Self::index_of(Self::char_of(i)) == i,
            forall|c: AlphabetChar|
                Self::valid_char(c) ==> 0 <= #[trigger] Self::index_of(c) < Self::sigma()
                    && Self::char_of(Self::index_of(c)) == c,
    ;

    fn i2c(&self, i: AlphabetIndex) -> (c: AlphabetChar)
        requires
            (i as int) < Self::sigma(),
        ensures
            c == Self::char_of(i as int),
    ;

    fn c2i(&self, c: AlphabetChar) -> (i: AlphabetIndex)
        requires
            Self::valid_char(c),
        ensures
            i as int == Self::index_of(c),
    ;

    fn try_c2i(&self, c: AlphabetChar) -> (r: Option<AlphabetIndex>)
        ensures
            r is Some <==> Self::valid_char(c),
            r matches Some(i) ==> i as int == Self::index_of(c),
    ;

    fn len(&self) -> (l: usize)
        ensures
            l as int == Self::sigma(),
    ;

    fn bits(&self) -> (b: usize)
        ensures
            b as int == Self::bits_spec(),
    ;
}

/// ASCII code of the base `A`.
pub const CHAR_A: u8 = 65;

/// ASCII code of the base `C`.
pub const CHAR_C: u8 = 67;

/// ASCII code of the base `G`.
pub const CHAR_G: u8 = 71;

/// ASCII code of the base `T`.
pub const CHAR_T: u8 = 84;

/// The DNA alphabet `{A, C, G, T}` with indices `A=0, C=1, G=2, T=3`.
pub struct DNAAlphabet;

impl Default for DNAAlphabet {
    fn default() -> (r: Self) {
        DNAAlphabet
    }
}

impl Alphabet for DNAAlphabet {
    open spec fn sigma() -> int {
        4
    }

    open spec fn char_of(i: int) -> AlphabetChar {
        if i == 0 {
            CHAR_A
        } else if i == 1 {
            CHAR_C
        } else if i == 2 {
            CHAR_G
        } else {
            CHAR_T
        }
    }

    open spec fn valid_char(c: AlphabetChar) -> bool {
        c == CHAR_A || c == CHAR_C || c == CHAR_G || c == CHAR_T
    }

    open spec fn index_of(c: AlphabetChar) -> int {
        if c == CHAR_A {
            0
        } else if c == CHAR_C {
            1
        } else if c == CHAR_G {
            2
        } else {
            3
        }
    }

    open spec fn bits_spec() -> int {
        2
    }

    proof fn alphabet_facts() {
    }

    fn i2c(&self, i: AlphabetIndex) -> (c: AlphabetChar) {
        if i == 0 {
            CHAR_A
        } else if i == 1 {
            CHAR_C
        } else if i == 2 {
            CHAR_G
        } else {
            CHAR_T
        }
    }

    fn c2i(&self, c: AlphabetChar) -> (i: AlphabetIndex) {
        if c == CHAR_A {
            0
        } else if c == CHAR_C {
            1
        } else if c == CHAR_G {
            2
        } else {
            3
        }
    }

    fn try_c2i(&self, c: AlphabetChar) -> (r: Option<AlphabetIndex>) {
        if c == CHAR_A {
            Some(0)
        } else if c == CHAR_C {
            Some(1)
        } else if c == CHAR_G {
            Some(2)
        } else if c == CHAR_T {
            Some(3)
        } else {
            None
        }
    }

    fn len(&self) -> (l: usize) {
        4
    }

    fn bits(&self) -> (b: usize) {
        2
    }
}

/// A text over an alphabet, stored as dense symbol indices.
pub struct AlphabetString<A: Alphabet> {
    /// The symbol indices; every entry lies below `A::sigma()`.
    pub bytes: Vec<AlphabetIndex>,

    /// The alphabet instance the indices refer to.
    pub alphabet: A,
}

impl<A: Alphabet> View for AlphabetString<A> {
    type V = Seq<AlphabetIndex>;

    open spec fn view(&self) -> Seq<AlphabetIndex> {
        self.bytes@
    }
}

impl<A: Alphabet> AlphabetString<A> {
    /// Every stored index lies inside the alphabet.
    pub open spec fn wf(self) -> bool {
        forall|i: int| 0 <= i < self@.len() ==> (#[trigger] self@[i]) < A::sigma()
    }

    /// An all-zero string of the requested length.
    pub fn new(n: usize) -> (r: Self)
        ensures
            r@ =~= Seq::new(n as nat, |i: int| 0u8),
            r@.len() == n,
            r.wf(),
    {
        proof {
            A::alphabet_facts();
        }
        let bytes: Vec<AlphabetIndex> = vec![0; n];
        Self { bytes, alphabet: Default::default() }
    }

    /// Translate raw symbols to their dense indices.
    pub fn from_chars(chars: &Vec<AlphabetChar>) -> (r: Self)
        requires
            forall|i: int| 0 <= i < chars@.len() ==> A::valid_char(#[trigger] chars@[i]),
        ensures
            r@.len() == chars@.len(),
            forall|i: int| 0 <= i < chars@.len() ==> #[trigger] r@[i] == A::index_of(chars@[i]),
            r.wf(),
    {
        proof {
            A::alphabet_facts();
        }
        let alphabet: A = Default::default();
        let mut bytes: Vec<AlphabetIndex> = Vec::new();
        let mut k: usize = 0;
        while k < chars.len()
            invariant
                k <= chars@.len(),
                bytes@.len() == k,
                forall|i: int| 0 <= i < chars@.len() ==> A::valid_char(#[trigger] chars@[i]),
                forall|i: int| 0 <= i < k ==> #[trigger] bytes@[i] == A::index_of(chars@[i]),
                forall|i: int| 0 <= i < k ==> (#[trigger] bytes@[i]) < A::sigma(),
            decreases chars@.len() - k,
        {
            proof {
                A::alphabet_facts();
            }
            let c = alphabet.c2i(chars[k]);
            bytes.push(c);
            k = k + 1;
        }
        Self { bytes, alphabet }
    }

    /// Translate raw symbols, rejecting any byte outside the alphabet.
    pub fn try_from_chars(chars: &Vec<AlphabetChar>) -> (r: Result<Self, Error>)
        ensures
            r is Ok <==> (forall|i: int|
                0 <= i < chars@.len() ==> A::valid_char(#[trigger] chars@[i])),
            r matches Ok(v) ==> v@.len() == chars@.len() && v.wf() && (forall|i: int|
                0 <= i < chars@.len() ==> #[trigger] v@[i] == A::index_of(chars@[i])),
            r matches Err(e) ==> e == Error::MalformedAlphabet,
    {
        proof {
            A::alphabet_facts();
        }
        let alphabet: A = Default::default();
        let mut bytes: Vec<AlphabetIndex> = Vec::new();
        let mut k: usize = 0;
        while k < chars.len()
            invariant
                k <= chars@.len(),
                bytes@.len() == k,
                forall|i: int| 0 <= i < k ==> A::valid_char(#[trigger] chars@[i]),
                forall|i: int| 0 <= i < k ==> #[trigger] bytes@[i] == A::index_of(chars@[i]),
                forall|i: int| 0 <= i < k ==> (#[trigger] bytes@[i]) < A::sigma(),
            decreases chars@.len() - k,
        {
            proof {
                A::alphabet_facts();
            }
            match alphabet.try_c2i(chars[k]) {
                Some(i) => {
                    bytes.push(i);
                },
                None => {
                    return Err(Error::MalformedAlphabet);
                },
            }
            k = k + 1;
        }
        Ok(Self { bytes, alphabet })
    }

    /// Length of the string.
    pub fn len(&self) -> (l: usize)
        ensures
            l == self@.len(),
    {
        self.bytes.len()
    }

    /// Read the symbol index at a position.
    pub fn get(&self, i: usize) -> (r: AlphabetIndex)
        requires
            i < self@.len(),
        ensures
            r == self@[i as int],
    {
        self.bytes[i]
    }

    /// Overwrite the symbol index at a position.
    pub fn set(&mut self, i: usize, v: AlphabetIndex)
        requires
            i < old(self)@.len(),
            (v as int) < A::sigma(),
        ensures
            final(self)@ =~= old(self)@.update(i as int, v),
            old(self).wf() ==> final(self).wf(),
    {
        self.bytes[i] = v;
    }
}

/// Scan direction of a pattern during search.
#[derive(Clone, Copy, PartialEq, Eq, Structural, Debug)]
pub enum Direction {
    FORWARD,
    BACKWARD,
}

/// A pattern: a symbol-index sequence plus the direction in which search
/// loops walk it.  Position `i` reads physically at `i` in forward mode
/// and at `len - 1 - i` in backward mode.
pub struct AlphabetPattern<A: Alphabet> {
    pub pattern: AlphabetString<A>,

    pub pattern_length: usize,

    pub direction: Direction,
}

impl<A: Alphabet> AlphabetPattern<A> {
    pub open spec fn wf(self) -> bool {
        &&& self.pattern.wf()
        &&& self.pattern_length == self.pattern@.len()
    }

    /// The symbol presented at logical position `i` under the current
    /// direction.
    pub open spec fn sym(self, i: int) -> AlphabetIndex {
        if self.direction is FORWARD {
            self.pattern@[i]
        } else {
            self.pattern@[self.pattern@.len() - 1 - i]
        }
    }

    /// The pattern as the search loops read it: physical order when
    /// forward, reversed when backward.
    pub open spec fn syms(self) -> Seq<AlphabetIndex> {
        Seq::new(self.pattern@.len(), |q: int| self.sym(q))
    }

    pub fn new(pattern: &Vec<AlphabetChar>, direction: Direction) -> (r: Self)
        requires
            forall|i: int| 0 <= i < pattern@.len() ==> A::valid_char(#[trigger] pattern@[i]),
        ensures
            r.wf(),
            r.pattern@.len() == pattern@.len(),
            forall|i: int|
                0 <= i < pattern@.len() ==> #[trigger] r.pattern@[i] == A::index_of(pattern@[i]),
            r.direction == direction,
    {
        let p = AlphabetString::<A>::from_chars(pattern);
        let n = p.len();
        Self { pattern: p, pattern_length: n, direction }
    }

    pub fn direction(&self) -> (d: Direction)
        ensures
            d == self.direction,
    {
        self.direction
    }

    pub fn set_direction(&mut self, direction: Direction)
        ensures
            final(self).direction == direction,
            final(self).pattern == old(self).pattern,
            final(self).pattern_length == old(self).pattern_length,
    {
        self.direction = direction;
    }

    pub fn len(&self) -> (l: usize)
        ensures
            l == self.pattern_length,
    {
        self.pattern_length
    }

    /// Read the pattern at logical position `i`, honouring the direction.
    pub fn char_at(&self, i: usize) -> (r: AlphabetIndex)
        requires
            self.wf(),
            i < self.pattern_length,
        ensures
            r == self.sym(i as int),
    {
        match self.direction {
            Direction::FORWARD => self.pattern.get(i),
            Direction::BACKWARD => self.pattern.get(self.pattern_length - i - 1),
        }
    }
}

} // verus!
