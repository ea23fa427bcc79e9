use vstd::prelude::*;

verus! {

/// How many bitplanes pack each pixel of an 8x8 tile.
#[derive(Debug, Clone, Copy, PartialEq, Eq, Structural)]
pub enum Bpp {
    _1bpp,
    _2bpp,
    _3bpp,
    _4bpp,
}

impl Bpp {
    /// Number of bitplanes of the format, 1 to 4.
    pub open spec fn planes(self) -> nat {
        match self {
            Bpp::_1bpp => 1,
            Bpp::_2bpp => 2,
            Bpp::_3bpp => 3,
            Bpp::_4bpp => 4,
        }
    }

    /// Bytes of one encoded tile.
    pub open spec fn tile_bytes(self) -> nat {
        8 * self.planes()
    }

    /// Number of distinct palette indices: `2^planes`.
    pub open spec fn index_limit(self) -> nat {
        match self {
            Bpp::_1bpp => 2,
            Bpp::_2bpp => 4,
            Bpp::_3bpp => 8,
            Bpp::_4bpp => 16,
        }
    }

    /// The format that a text names: exactly one of "1", "2", "3", "4".
    pub open spec fn parsed(s: Seq<char>) -> Option<Bpp> {
        if s.len() != 1 {
            None
        } else if s[0] == '1' {
            Some(Bpp::_1bpp)
        } else if s[0] == '2' {
            Some(Bpp::_2bpp)
        } else if s[0] == '3' {
            Some(Bpp::_3bpp)
        } else if s[0] == '4' {
            Some(Bpp::_4bpp)
        } else {
            None
        }
    }

    /// Reads a format from its text; anything but "1", "2", "3" or "4" is refused.
    pub fn new(format: String) -> (r: Result<Bpp, &'static str>)
        ensures
            Bpp::parsed(format@) is Some <==> r is Ok,
            r is Ok ==> Bpp::parsed(format@) == Some(r->Ok_0),
    {
        let s = format.as_str();
        if s.unicode_len() != 1 {
            return Err("Unsupported bpp format");
        }
        let c = s.get_char(0);
        if c == '1' {
            Ok(Bpp::_1bpp)
        } else if c == '2' {
            Ok(Bpp::_2bpp)
        } else if c == '3' {
            Ok(Bpp::_3bpp)
        } else if c == '4' {
            Ok(Bpp::_4bpp)
        } else {
            Err("Unsupported bpp format")
        }
    }

    /// Number of bitplanes.
    pub fn val(&self) -> (r: u8)
        ensures
            r as nat == self.planes(),
    {
        match self {
            Bpp::_1bpp => 1,
            Bpp::_2bpp => 2,
            Bpp::_3bpp => 3,
            Bpp::_4bpp => 4,
        }
    }

    /// Bytes of one encoded 8x8 tile.
    pub fn bytes_per_8x8(&self) -> (r: usize)
        ensures
            r as nat == self.tile_bytes(),
    {
        self.val() as usize * 8
    }

    /// Largest palette index the format can hold: `2^planes - 1`.
    pub fn max_palette_index(&self) -> (r: u8)
        ensures
            r as nat + 1 == self.index_limit(),
    {
        match self {
            Bpp::_1bpp => 1,
            Bpp::_2bpp => 3,
            Bpp::_3bpp => 7,
            Bpp::_4bpp => 15,
        }
    }
}

} // verus!
