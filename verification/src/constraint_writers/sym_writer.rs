//! The symbol file: one line per signal with its original index, its index in
//! the witness, its node and its name.

use vstd::prelude::*;
use vstd::string::StringExecFns;
use vstd::utf8::encode_utf8;
use crate::encoding::append_bytes;
use crate::text::{int_text, push_i64};

verus! {

pub struct SymElem {
    pub original: i64,
    pub witness: i64,
    pub node_id: i64,
    pub symbol: String,
}

/// `original,witness,node_id,symbol`.
pub open spec fn sym_elem_text(elem: SymElem) -> Seq<char> {
    int_text(elem.original as int) + seq![','] + int_text(elem.witness as int) + seq![','] + int_text(
        elem.node_id as int,
    ) + seq![','] + elem.symbol@
}

impl SymElem {
    pub fn to_string(&self) -> (res: String)
        ensures
            res@ == sym_elem_text(*self),
    {
        let mut s = String::new();
        proof {
            reveal_strlit(",");
        }
        push_i64(&mut s, self.original);
        s.append(",");
        push_i64(&mut s, self.witness);
        s.append(",");
        push_i64(&mut s, self.node_id);
        s.append(",");
        s.append(self.symbol.as_str());
        proof {
            assert(s@ =~= sym_elem_text(*self));
        }
        s
    }
}

/// The symbol file, built in memory.
pub struct SymFile {
    pub data: Vec<u8>,
}

impl SymFile {
    pub fn new() -> (res: SymFile)
        ensures
            res.data@ == Seq::<u8>::empty(),
    {
        SymFile { data: Vec::new() }
    }

    /// Adds the line of `elem`.
    pub fn write_sym_elem(sym: &mut SymFile, elem: SymElem)
        ensures
            final(sym).data@ == old(sym).data@ + encode_utf8(sym_elem_text(elem)) + encode_utf8(
                seq!['\n'],
            ),
    {
        let text = elem.to_string();
        append_bytes(&mut sym.data, text.as_str().as_bytes());
        let newline = "\n";
        proof {
            reveal_strlit("\n");
            assert(newline@ =~= seq!['\n']);
        }
        append_bytes(&mut sym.data, newline.as_bytes());
    }
}

} // verus!
