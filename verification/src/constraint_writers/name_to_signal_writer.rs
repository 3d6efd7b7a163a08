//! Entries of the JSON object from signal names to witness indexes.

use vstd::prelude::*;
use vstd::string::StringExecFns;
use crate::text::{int_text, push_i64};

verus! {

pub struct Name2Signal {
    pub witness: i64,
    pub symbol: String,
}

/// ` "symbol" : witness`.
pub open spec fn name_to_signal_text(elem: Name2Signal) -> Seq<char> {
    seq![' ', '"'] + elem.symbol@ + seq!['"', ' ', ':', ' '] + int_text(elem.witness as int)
}

impl Name2Signal {
    pub fn to_string(&self) -> (res: String)
        ensures
            res@ == name_to_signal_text(*self),
    {
        let mut s = String::new();
        proof {
            reveal_strlit(" \"");
            reveal_strlit("\" : ");
        }
        s.append(" \"");
        s.append(self.symbol.as_str());
        s.append("\" : ");
        push_i64(&mut s, self.witness);
        proof {
            assert(s@ =~= name_to_signal_text(*self));
        }
        s
    }
}

} // verus!
