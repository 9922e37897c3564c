//! A directory record and the derivation of its display name.

use vstd::prelude::*;
use vstd::string::*;

verus! {

/// One person in the directory: the four roster fields and the flag
/// saying whether the extension was reachable when the record was built.
#[derive(Debug)]
pub struct Record {
    pub firstname: String,
    pub lastname: String,
    pub callsign: String,
    pub phonenumber: String,
    pub isactive: bool,
}

/// The mathematical image of a `Record`: its fields as character
/// sequences.
pub struct RecordView {
    pub firstname: Seq<char>,
    pub lastname: Seq<char>,
    pub callsign: Seq<char>,
    pub phonenumber: Seq<char>,
    pub isactive: bool,
}

impl View for Record {
    type V = RecordView;

    open spec fn view(&self) -> RecordView {
        RecordView {
            firstname: self.firstname@,
            lastname: self.lastname@,
            callsign: self.callsign@,
            phonenumber: self.phonenumber@,
            isactive: self.isactive,
        }
    }
}

/// The marker put in front of the display name of a reachable extension.
pub open spec fn active_prefix(isactive: bool) -> Seq<char> {
    if isactive {
        seq!['*']
    } else {
        Seq::<char>::empty()
    }
}

/// The display name of a record, by the fixed fallback policy: prefer
/// `lastname, firstname (callsign)`, fall back to whichever of the
/// fields is present, and label a record with no usable field at all by
/// the empty string. The active marker is prepended to every non-empty
/// form.
pub open spec fn name_spec(v: RecordView) -> Seq<char> {
    let pfx = active_prefix(v.isactive);
    if v.lastname.len() == 0 && v.firstname.len() == 0 && v.callsign.len() == 0
        && v.phonenumber.len() == 0 {
        Seq::<char>::empty()
    } else if v.lastname.len() == 0 && v.firstname.len() == 0 && v.callsign.len() == 0 {
        pfx + v.phonenumber
    } else if v.lastname.len() == 0 && v.firstname.len() == 0 {
        pfx + v.callsign
    } else if v.lastname.len() == 0 {
        pfx + v.firstname + seq![' ', '('] + v.callsign + seq![')']
    } else if v.firstname.len() == 0 {
        pfx + v.lastname + seq![' ', '('] + v.callsign + seq![')']
    } else {
        pfx + v.lastname + seq![',', ' '] + v.firstname + seq![' ', '('] + v.callsign + seq![')']
    }
}

impl Record {
    /// Derives the display name of this record, exactly as `name_spec`
    /// states it.
    pub fn name_for_entry(&self) -> (r: String)
        ensures
            r@ == name_spec(self@),
    {
        proof {
            reveal_strlit("*");
            reveal_strlit(", ");
            reveal_strlit(" (");
            reveal_strlit(")");
        }
        let mut out = String::new();
        if self.isactive {
            out.append("*");
        }
        proof {
            assert(out@ =~= active_prefix(self@.isactive));
        }
        let l_empty = self.lastname.as_str().is_empty();
        let f_empty = self.firstname.as_str().is_empty();
        let c_empty = self.callsign.as_str().is_empty();
        let p_empty = self.phonenumber.as_str().is_empty();
        if l_empty && f_empty && c_empty && p_empty {
            let r = String::new();
            proof {
                assert(r@ =~= name_spec(self@));
            }
            return r;
        }
        if l_empty && f_empty && c_empty {
            out.append(self.phonenumber.as_str());
            proof {
                assert(out@ =~= name_spec(self@));
            }
            return out;
        }
        if l_empty && f_empty {
            out.append(self.callsign.as_str());
            proof {
                assert(out@ =~= name_spec(self@));
            }
            return out;
        }
        if l_empty {
            out.append(self.firstname.as_str());
        } else if f_empty {
            out.append(self.lastname.as_str());
        } else {
            out.append(self.lastname.as_str());
            out.append(", ");
            out.append(self.firstname.as_str());
        }
        out.append(" (");
        out.append(self.callsign.as_str());
        out.append(")");
        proof {
            assert(("*")@ =~= seq!['*']);
            assert((", ")@ =~= seq![',', ' ']);
            assert((" (")@ =~= seq![' ', '(']);
            assert((")")@ =~= seq![')']);
            assert(out@ =~= name_spec(self@));
        }
        out
    }
}

/// A reachable extension is visibly marked: whenever a record is active
/// and any of its four fields is non-empty, its display name starts
/// with the `*` marker.
pub proof fn lemma_active_prefix(v: RecordView)
    requires
        v.isactive,
        v.lastname.len() > 0 || v.firstname.len() > 0 || v.callsign.len() > 0
            || v.phonenumber.len() > 0,
    ensures
        name_spec(v).len() > 0,
        name_spec(v)[0] == '*',
{
}

} // verus!
