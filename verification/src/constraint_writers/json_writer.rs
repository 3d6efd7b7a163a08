//! JSON documents of constraints, signal names and substitutions, built in
//! memory.

use vstd::prelude::*;
use vstd::utf8::encode_utf8;
use crate::encoding::append_bytes;

verus! {

/// The UTF-8 bytes of `s`.
pub open spec fn utf8(s: &str) -> Seq<u8> {
    encode_utf8(s@)
}

fn push_str(data: &mut Vec<u8>, s: &str)
    ensures
        final(data)@ == old(data)@ + encode_utf8(s@),
{
    append_bytes(data, s.as_bytes());
}

/// A JSON object with the list of constraints, each given as JSON text.
pub struct ConstraintJSON {
    pub data: Vec<u8>,
    constraints_flag: bool,
}

impl View for ConstraintJSON {
    type V = Seq<u8>;

    closed spec fn view(&self) -> Seq<u8> {
        self.data@
    }
}

impl ConstraintJSON {
    /// The bytes written so far.
    pub fn bytes(&self) -> (res: &Vec<u8>)
        ensures
            res@ == self@,
    {
        &self.data
    }

    /// Whether a constraint was written already.
    pub closed spec fn has_constraints(&self) -> bool {
        self.constraints_flag
    }

    pub fn new() -> (res: ConstraintJSON)
        ensures
            res@ == utf8("{") + utf8("\n\"constraints\": ["),
            !res.has_constraints(),
    {
        let mut data = Vec::<u8>::new();
        push_str(&mut data, "{");
        push_str(&mut data, "\n\"constraints\": [");
        ConstraintJSON { data, constraints_flag: false }
    }

    /// Adds a constraint to the list: a line break before the first, a comma
    /// and a line break before the others.
    pub fn write_constraint(&mut self, constraint: &str)
        ensures
            final(self)@ == old(self)@ + (if old(self).has_constraints() {
                utf8(",\n")
            } else {
                utf8("\n")
            }) + utf8(constraint),
            final(self).has_constraints(),
    {
        if !self.constraints_flag {
            self.constraints_flag = true;
            push_str(&mut self.data, "\n");
        } else {
            push_str(&mut self.data, ",\n");
        }
        push_str(&mut self.data, constraint);
    }

    /// Closes the list and the object.
    pub fn end(&mut self)
        ensures
            final(self)@ == old(self)@ + utf8("\n]\n}"),
            final(self).has_constraints() == old(self).has_constraints(),
    {
        push_str(&mut self.data, "\n]\n}");
    }
}

/// A JSON object from signal names to their indexes; "one" is signal 0.
pub struct SignalsJSON {
    data: Vec<u8>,
}

impl View for SignalsJSON {
    type V = Seq<u8>;

    closed spec fn view(&self) -> Seq<u8> {
        self.data@
    }
}

impl SignalsJSON {
    /// The bytes written so far.
    pub fn bytes(&self) -> (res: &Vec<u8>)
        ensures
            res@ == self@,
    {
        &self.data
    }

    pub fn new() -> (res: Self)
        ensures
            res@ == utf8("{") + utf8("\n\"signalName2Idx\": {") + utf8("\n\"one\" : \"0\""),
    {
        let mut data = Vec::<u8>::new();
        push_str(&mut data, "{");
        push_str(&mut data, "\n\"signalName2Idx\": {");
        push_str(&mut data, "\n\"one\" : \"0\"");
        Self { data }
    }

    /// Adds `,\n"signal" : data`.
    pub fn write_correspondence(&mut self, signal: String, data: String)
        ensures
            final(self)@ == old(self)@ + utf8(",\n\"") + encode_utf8(signal@) + utf8("\" : ")
                + encode_utf8(data@),
    {
        push_str(&mut self.data, ",\n\"");
        push_str(&mut self.data, signal.as_str());
        push_str(&mut self.data, "\" : ");
        push_str(&mut self.data, data.as_str());
    }

    /// Closes the object.
    /// Closes the object; the writer, and the text with it, is then dropped.
    pub fn end(self) {
        let mut data = self.data;
        push_str(&mut data, "\n}\n}");
    }
}

/// A JSON object from signals to the expressions that replace them.
pub struct SubstitutionJSON {
    pub data: Vec<u8>,
    first: bool,
}

impl View for SubstitutionJSON {
    type V = Seq<u8>;

    closed spec fn view(&self) -> Seq<u8> {
        self.data@
    }
}

impl SubstitutionJSON {
    /// The bytes written so far.
    pub fn bytes(&self) -> (res: &Vec<u8>)
        ensures
            res@ == self@,
    {
        &self.data
    }

    /// Whether no substitution was written yet.
    pub closed spec fn is_first(&self) -> bool {
        self.first
    }

    pub fn new() -> (res: Self)
        ensures
            res@ == utf8("{"),
            res.is_first(),
    {
        let first = true;
        let mut data = Vec::<u8>::new();
        push_str(&mut data, "{");
        Self { data, first }
    }

    /// Adds `"signal" : substitution`, after a line break for the first and
    /// after a comma and a line break for the others.
    pub fn write_substitution(&mut self, signal: &str, substitution: &str)
        ensures
            final(self)@ == old(self)@ + (if old(self).is_first() {
                utf8("\n")
            } else {
                utf8(",\n")
            }) + utf8("\"") + utf8(signal) + utf8("\" : ") + utf8(substitution),
            !final(self).is_first(),
    {
        if self.first {
            self.first = false;
            push_str(&mut self.data, "\n");
        } else {
            push_str(&mut self.data, ",\n");
        }
        push_str(&mut self.data, "\"");
        push_str(&mut self.data, signal);
        push_str(&mut self.data, "\" : ");
        push_str(&mut self.data, substitution);
    }

    /// Closes the object.
    pub fn end(&mut self)
        ensures
            final(self)@ == old(self)@ + utf8("\n}"),
            final(self).is_first() == old(self).is_first(),
    {
        push_str(&mut self.data, "\n}");
    }
}

} // verus!
