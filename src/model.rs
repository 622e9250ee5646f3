use vstd::prelude::*;

verus! {

/// The model variant to load.
#[derive(Copy, Clone, Debug, PartialEq, Eq, Structural)]
pub enum Variant {
    B,
    C,
    P,
    Q,
}

impl Variant {
    /// The one-letter name of the variant.
    pub open spec fn letter(self) -> Seq<char> {
        match self {
            Variant::B => seq!['B'],
            Variant::C => seq!['C'],
            Variant::P => seq!['P'],
            Variant::Q => seq!['Q'],
        }
    }

    fn suffix(&self) -> (r: &'static str)
        ensures
            r@ == self.letter(),
    {
        proof {
            reveal_strlit("B");
            reveal_strlit("C");
            reveal_strlit("P");
            reveal_strlit("Q");
        }
        match self {
            Variant::B => "B",
            Variant::C => "C",
            Variant::P => "P",
            Variant::Q => "Q",
        }
    }

    /// File name of this variant's encoder model.
    pub fn encoder_filename(&self) -> (r: String)
        ensures
            r@ == "encoder_"@ + self.letter() + ".onnx"@,
    {
        let mut s = String::from_str("encoder_");
        s.append(self.suffix());
        s.append(".onnx");
        s
    }

    /// File name of this variant's decoder model.
    pub fn decoder_filename(&self) -> (r: String)
        ensures
            r@ == "decoder_"@ + self.letter() + ".onnx"@,
    {
        let mut s = String::from_str("decoder_");
        s.append(self.suffix());
        s.append(".onnx");
        s
    }

    /// The variant's name, as `FromStr` reads it.
    pub fn name(&self) -> (r: String)
        ensures
            r@ == self.letter(),
    {
        String::from_str(self.suffix())
    }

    /// Side of the square image that the decoder of this variant reads.
    pub fn decode_size(&self) -> (r: u32)
        ensures
            r == (if *self == Variant::P { 224u32 } else { 256u32 }),
    {
        match self {
            Variant::P => 224,
            _ => 256,
        }
    }

    /// Parses a variant from its one-letter name.
    pub fn from_name(s: &str) -> (r: Option<Variant>)
        ensures
            match r {
                Some(v) => s@ == v.letter(),
                None => forall|v: Variant| s@ != v.letter(),
            },
    {
        if s.unicode_len() != 1 {
            return None;
        }
        let c = s.get_char(0);
        assert(s@ =~= seq![c]);
        if c == 'B' {
            Some(Variant::B)
        } else if c == 'C' {
            Some(Variant::C)
        } else if c == 'P' {
            Some(Variant::P)
        } else if c == 'Q' {
            Some(Variant::Q)
        } else {
            None
        }
    }
}


/// The error of parsing a name that is no variant.
#[derive(Debug, Clone, Copy, PartialEq, Eq, Structural)]
pub struct InvalidModelVariant;

impl std::str::FromStr for Variant {
    type Err = InvalidModelVariant;

    fn from_str(s: &str) -> Result<Self, InvalidModelVariant> {
        match Variant::from_name(s) {
            Some(v) => Ok(v),
            None => Err(InvalidModelVariant),
        }
    }
}

} // verus!
