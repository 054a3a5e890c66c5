//! Labels: the quoted object keys that the matchers look for.
use vstd::prelude::*;

verus! {

/// The quote character that delimits a label.
pub const QUOTE: u8 = 34;

/// A label's bytes framed by the two delimiting quotes.
pub open spec fn quoted(l: Seq<u8>) -> Seq<u8> {
    seq![QUOTE] + l + seq![QUOTE]
}

/// An object key to search for, held both bare and with its quotes.
pub struct JsonString {
    string: Vec<u8>,
    string_with_quotes: Vec<u8>,
}

impl View for JsonString {
    type V = Seq<u8>;

    /// The bare bytes of the label, without quotes.
    closed spec fn view(&self) -> Seq<u8> {
        self.string@
    }
}

impl JsonString {
    /// The quoted form is the bare form framed by two quotes.
    pub closed spec fn wf(&self) -> bool {
        self.string_with_quotes@ == quoted(self.string@)
    }

    /// Builds a label from its bare (already escaped) bytes.
    pub fn new(bytes: &[u8]) -> (r: Self)
        ensures
            r@ == bytes@,
            r.wf(),
    {
        let mut string: Vec<u8> = Vec::new();
        let mut string_with_quotes: Vec<u8> = Vec::new();
        string_with_quotes.push(QUOTE);
        let mut i: usize = 0;
        while i < bytes.len()
            invariant
                i <= bytes@.len(),
                string@ == bytes@.subrange(0, i as int),
                string_with_quotes@ == seq![QUOTE] + bytes@.subrange(0, i as int),
            decreases bytes@.len() - i,
        {
            string.push(bytes[i]);
            string_with_quotes.push(bytes[i]);
            proof {
                assert(bytes@.subrange(0, i + 1) == bytes@.subrange(0, i as int).push(bytes@[i as int]));
            }
            i = i + 1;
        }
        string_with_quotes.push(QUOTE);
        proof {
            assert(bytes@.subrange(0, bytes@.len() as int) == bytes@);
            assert(string_with_quotes@ == quoted(string@));
        }
        JsonString { string, string_with_quotes }
    }

    /// The bare bytes of the label.
    pub fn bytes(&self) -> (r: &[u8])
        ensures
            r@ == self@,
    {
        self.string.as_slice()
    }

    /// The bytes of the label with its two quotes.
    pub fn bytes_with_quotes(&self) -> (r: &[u8])
        requires
            self.wf(),
        ensures
            r@ == quoted(self@),
            r@.len() == self@.len() + 2,
    {
        self.string_with_quotes.as_slice()
    }
}

} // verus!
