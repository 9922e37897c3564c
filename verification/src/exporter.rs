//! Rendering an ordered sequence of records as the XML directory
//! document: one entry per record, holding the display name, the
//! direct-dial address, and the raw PBX number.

use vstd::prelude::*;
use vstd::string::*;
use crate::record::{Record, RecordView, name_spec};
use crate::builder::views_of;

verus! {

/// What one character contributes to XML text content: the markup
/// characters become entity references, everything else stands as it
/// is.
pub open spec fn escape_char(c: char) -> Seq<char> {
    if c == '&' {
        seq!['&', 'a', 'm', 'p', ';']
    } else if c == '<' {
        seq!['&', 'l', 't', ';']
    } else if c == '>' {
        seq!['&', 'g', 't', ';']
    } else {
        seq![c]
    }
}

/// XML-escaped text content.
pub open spec fn escape(s: Seq<char>) -> Seq<char>
    decreases s.len(),
{
    if s.len() == 0 {
        Seq::<char>::empty()
    } else {
        escape_char(s[0]) + escape(s.drop_first())
    }
}

proof fn lemma_escape_step(s: Seq<char>, i: int)
    requires
        0 <= i < s.len(),
    ensures
        escape(s.take(i + 1)) == escape(s.take(i)) + escape_char(s[i]),
    decreases i,
{
    if i == 0 {
        assert(s.take(1)[0] == s[0]);
        assert(s.take(1).drop_first() =~= s.take(0));
        assert(escape(s.take(0)) =~= Seq::<char>::empty());
        assert(escape(s.take(1)) =~= escape_char(s[0]));
        assert(escape(s.take(0)) + escape_char(s[0]) =~= escape_char(s[0]));
    } else {
        lemma_escape_step(s.drop_first(), i - 1);
        assert(s.take(i + 1)[0] == s[0]);
        assert(s.take(i + 1).drop_first() =~= s.drop_first().take(i));
        assert(s.take(i).drop_first() =~= s.drop_first().take(i - 1));
        assert(s.take(i)[0] == s[0]);
        assert(s.drop_first()[i - 1] == s[i]);
        assert(escape(s.take(i + 1)) == escape_char(s[0]) + (escape(s.drop_first().take(i - 1))
            + escape_char(s[i])));
        assert(escape_char(s[0]) + (escape(s.drop_first().take(i - 1)) + escape_char(s[i]))
            =~= (escape_char(s[0]) + escape(s.drop_first().take(i - 1))) + escape_char(s[i]));
    }
}

/// Escapes a string for use as XML text content.
pub fn xml_escape(s: &str) -> (r: String)
    ensures
        r@ == escape(s@),
{
    proof {
        reveal_strlit("&amp;");
        reveal_strlit("&lt;");
        reveal_strlit("&gt;");
    }
    let len = s.unicode_len();
    let mut out = String::new();
    let mut i: usize = 0;
    proof {
        assert(escape(s@.take(0)) =~= Seq::<char>::empty());
    }
    while i < len
        invariant
            len == s@.len(),
            0 <= i <= len,
            out@ == escape(s@.take(i as int)),
        decreases len - i,
    {
        proof {
            lemma_escape_step(s@, i as int);
            reveal_strlit("&amp;");
            reveal_strlit("&lt;");
            reveal_strlit("&gt;");
        }
        let c = s.get_char(i);
        if c == '&' {
            out.append("&amp;");
            proof {
                assert(("&amp;")@ =~= escape_char('&'));
            }
        } else if c == '<' {
            out.append("&lt;");
            proof {
                assert(("&lt;")@ =~= escape_char('<'));
            }
        } else if c == '>' {
            out.append("&gt;");
            proof {
                assert(("&gt;")@ =~= escape_char('>'));
            }
        } else {
            out.push(c);
            proof {
                assert(escape_char(c) =~= seq![c]);
            }
        }
        i = i + 1;
    }
    proof {
        assert(s@.take(len as int) =~= s@);
    }
    out
}

/// Reading XML text content back: each entity reference written by
/// `escape` becomes its character again.
pub open spec fn unescape(s: Seq<char>) -> Seq<char>
    decreases s.len(),
{
    if s.len() == 0 {
        Seq::<char>::empty()
    } else if s.len() >= 5 && s.take(5) == seq!['&', 'a', 'm', 'p', ';'] {
        seq!['&'] + unescape(s.skip(5))
    } else if s.len() >= 4 && s.take(4) == seq!['&', 'l', 't', ';'] {
        seq!['<'] + unescape(s.skip(4))
    } else if s.len() >= 4 && s.take(4) == seq!['&', 'g', 't', ';'] {
        seq!['>'] + unescape(s.skip(4))
    } else {
        seq![s[0]] + unescape(s.drop_first())
    }
}

/// Escaping loses nothing: reading the escaped text back gives the
/// original text, for every string. With the exactness of
/// `document_xml` this is what lets a reader of the document recover
/// each name and phone value as it was.
pub proof fn lemma_unescape_escape(s: Seq<char>)
    ensures
        unescape(escape(s)) == s,
    decreases s.len(),
{
    if s.len() == 0 {
        assert(unescape(escape(s)) =~= s);
    } else {
        lemma_unescape_escape(s.drop_first());
        let e = escape(s);
        let c = s[0];
        assert(e == escape_char(c) + escape(s.drop_first()));
        if c == '&' {
            assert(e.take(5) =~= seq!['&', 'a', 'm', 'p', ';']);
            assert(e.skip(5) =~= escape(s.drop_first()));
            assert(seq!['&'] + s.drop_first() =~= s);
        } else if c == '<' {
            assert(e[0] == '&' && e[1] == 'l');
            assert(e.len() >= 5 ==> e.take(5)[1] == 'l');
            assert(e.take(4) =~= seq!['&', 'l', 't', ';']);
            assert(e.skip(4) =~= escape(s.drop_first()));
            assert(seq!['<'] + s.drop_first() =~= s);
        } else if c == '>' {
            assert(e[0] == '&' && e[1] == 'g');
            assert(e.len() >= 5 ==> e.take(5)[1] == 'g');
            assert(e.take(4) =~= seq!['&', 'g', 't', ';']);
            assert(e.skip(4) =~= escape(s.drop_first()));
            assert(seq!['>'] + s.drop_first() =~= s);
        } else {
            assert(e[0] == c);
            assert(e.len() >= 5 ==> e.take(5)[0] == c);
            assert(e.len() >= 4 ==> e.take(4)[0] == c);
            assert(e.drop_first() =~= escape(s.drop_first()));
            assert(seq![c] + s.drop_first() =~= s);
        }
    }
}

/// The direct-dial address of an extension: the number as both the user
/// and the host label of the mesh-local address.
pub open spec fn direct_dial(phone: Seq<char>) -> Seq<char> {
    phone + "@"@ + phone + ".local.mesh"@
}

/// One directory entry: the display name and the two phone address
/// forms, direct dial first, all XML-escaped.
pub open spec fn entry_xml(v: RecordView) -> Seq<char> {
    "  <DirectoryEntry>\n    <Name>"@ + escape(name_spec(v)) + "</Name>\n    <Telephone>"@
        + escape(direct_dial(v.phonenumber)) + "</Telephone>\n    <Telephone>"@ + escape(
        v.phonenumber,
    ) + "</Telephone>\n  </DirectoryEntry>\n"@
}

/// The entries of the document, in record order.
pub open spec fn entries_xml(rs: Seq<RecordView>) -> Seq<char>
    decreases rs.len(),
{
    if rs.len() == 0 {
        Seq::<char>::empty()
    } else {
        entries_xml(rs.drop_last()) + entry_xml(rs.last())
    }
}

/// The whole directory document: declaration, root element, one entry
/// per record.
pub open spec fn document_xml(rs: Seq<RecordView>) -> Seq<char> {
    "<?xml version=\"1.0\" encoding=\"UTF-8\"?>\n<IPPhoneDirectory>\n"@ + entries_xml(rs)
        + "</IPPhoneDirectory>\n"@
}

/// No character of escaped text is a markup opener: whatever the text,
/// the next `<` after it belongs to the following tag.
pub open spec fn no_markup(s: Seq<char>) -> bool {
    forall|i: int| 0 <= i < s.len() ==> s[i] != '<'
}

proof fn lemma_escape_no_markup(s: Seq<char>)
    ensures
        no_markup(escape(s)),
    decreases s.len(),
{
    if s.len() > 0 {
        lemma_escape_no_markup(s.drop_first());
        assert forall|i: int| 0 <= i < escape(s).len() implies escape(s)[i] != '<' by {
            if i < escape_char(s[0]).len() {
                assert(escape(s)[i] == escape_char(s[0])[i]);
            } else {
                assert(escape(s)[i] == escape(s.drop_first())[i - escape_char(s[0]).len()]);
            }
        }
    }
}

/// The position of the first `<` in the sequence; its length when none
/// occurs.
pub open spec fn markup_pos(s: Seq<char>) -> int
    decreases s.len(),
{
    if s.len() == 0 {
        0
    } else if s[0] == '<' {
        0
    } else {
        1 + markup_pos(s.drop_first())
    }
}

proof fn lemma_markup_pos_concat(a: Seq<char>, b: Seq<char>)
    requires
        no_markup(a),
        b.len() > 0,
        b[0] == '<',
    ensures
        markup_pos(a + b) == a.len(),
    decreases a.len(),
{
    if a.len() == 0 {
        assert(a + b =~= b);
    } else {
        assert((a + b)[0] == a[0]);
        assert((a + b).drop_first() =~= a.drop_first() + b);
        lemma_markup_pos_concat(a.drop_first(), b);
    }
}

/// One sequence begins with another.
pub open spec fn starts_with(s: Seq<char>, p: Seq<char>) -> bool {
    s.len() >= p.len() && s.take(p.len() as int) == p
}

/// What a reader of the document sees of one record: the display name
/// and the two phone texts, in document order.
pub open spec fn entry_fields(v: RecordView) -> (Seq<char>, Seq<char>, Seq<char>) {
    (name_spec(v), direct_dial(v.phonenumber), v.phonenumber)
}

/// Reads the entries back out of the document body: each entry's three
/// text segments end at the `<` of the following tag and are
/// unescaped; the body must end with the closing root tag.
pub open spec fn parse_entries(m: Seq<char>) -> Option<
    Seq<(Seq<char>, Seq<char>, Seq<char>)>,
>
    decreases m.len(),
{
    if m == "</IPPhoneDirectory>\n"@ {
        Some(Seq::empty())
    } else if starts_with(m, "  <DirectoryEntry>\n    <Name>"@) {
        let r1 = m.skip("  <DirectoryEntry>\n    <Name>"@.len() as int);
        let en = r1.take(markup_pos(r1));
        let r2 = r1.skip(markup_pos(r1));
        if starts_with(r2, "</Name>\n    <Telephone>"@) {
            let r3 = r2.skip("</Name>\n    <Telephone>"@.len() as int);
            let ed = r3.take(markup_pos(r3));
            let r4 = r3.skip(markup_pos(r3));
            if starts_with(r4, "</Telephone>\n    <Telephone>"@) {
                let r5 = r4.skip("</Telephone>\n    <Telephone>"@.len() as int);
                let ep = r5.take(markup_pos(r5));
                let r6 = r5.skip(markup_pos(r5));
                if starts_with(r6, "</Telephone>\n  </DirectoryEntry>\n"@) {
                    let rest = r6.skip("</Telephone>\n  </DirectoryEntry>\n"@.len() as int);
                    if rest.len() < m.len() {
                        match parse_entries(rest) {
                            Some(t) => Some(
                                seq![(unescape(en), unescape(ed), unescape(ep))] + t,
                            ),
                            None => None,
                        }
                    } else {
                        None
                    }
                } else {
                    None
                }
            } else {
                None
            }
        } else {
            None
        }
    } else {
        None
    }
}

/// Reads a whole directory document back: the declaration and root
/// opener, then the entries.
pub open spec fn parse_document(s: Seq<char>) -> Option<
    Seq<(Seq<char>, Seq<char>, Seq<char>)>,
> {
    if starts_with(s, "<?xml version=\"1.0\" encoding=\"UTF-8\"?>\n<IPPhoneDirectory>\n"@) {
        parse_entries(
            s.skip("<?xml version=\"1.0\" encoding=\"UTF-8\"?>\n<IPPhoneDirectory>\n"@.len() as int),
        )
    } else {
        None
    }
}

proof fn lemma_entries_front(rs: Seq<RecordView>)
    requires
        rs.len() > 0,
    ensures
        entries_xml(rs) == entry_xml(rs.first()) + entries_xml(rs.drop_first()),
    decreases rs.len(),
{
    if rs.len() == 1 {
        assert(rs.drop_last() =~= Seq::<RecordView>::empty());
        assert(rs.drop_first() =~= Seq::<RecordView>::empty());
        assert(entries_xml(rs) =~= entry_xml(rs.first()) + entries_xml(rs.drop_first()));
    } else {
        lemma_entries_front(rs.drop_last());
        assert(rs.drop_last().first() == rs.first());
        assert(rs.drop_last().drop_first() =~= rs.drop_first().drop_last());
        assert(rs.drop_first().last() == rs.last());
        assert(entries_xml(rs) == (entry_xml(rs.first()) + entries_xml(rs.drop_first().drop_last()))
            + entry_xml(rs.last()));
        assert((entry_xml(rs.first()) + entries_xml(rs.drop_first().drop_last())) + entry_xml(
            rs.last(),
        ) =~= entry_xml(rs.first()) + (entries_xml(rs.drop_first().drop_last()) + entry_xml(
            rs.drop_first().last(),
        )));
    }
}

#[verifier::rlimit(100)]
proof fn lemma_parse_step(v: RecordView, tail: Seq<char>)
    ensures
        parse_entries(entry_xml(v) + tail) == (match parse_entries(tail) {
            Some(t) => Some(seq![entry_fields(v)] + t),
            None => None,
        }),
{
    reveal_strlit("</IPPhoneDirectory>\n");
    reveal_strlit("  <DirectoryEntry>\n    <Name>");
    reveal_strlit("</Name>\n    <Telephone>");
    reveal_strlit("</Telephone>\n    <Telephone>");
    reveal_strlit("</Telephone>\n  </DirectoryEntry>\n");
    let e1 = "  <DirectoryEntry>\n    <Name>"@;
    let e2 = "</Name>\n    <Telephone>"@;
    let e3 = "</Telephone>\n    <Telephone>"@;
    let e4 = "</Telephone>\n  </DirectoryEntry>\n"@;
    let fin = "</IPPhoneDirectory>\n"@;
    let m = entry_xml(v) + tail;
    let en = escape(name_spec(v));
    let ed = escape(direct_dial(v.phonenumber));
    let ep = escape(v.phonenumber);
    lemma_escape_no_markup(name_spec(v));
    lemma_escape_no_markup(direct_dial(v.phonenumber));
    lemma_escape_no_markup(v.phonenumber);
    // the document body of one record, reassociated step by step
    assert(m =~= e1 + (en + (e2 + (ed + (e3 + (ep + (e4 + tail)))))));
    let w1 = en + (e2 + (ed + (e3 + (ep + (e4 + tail)))));
    assert(m != fin) by {
        assert(m[0] == ' ' && fin[0] == '<');
    }
    assert(starts_with(m, e1)) by {
        assert(m.take(e1.len() as int) =~= e1);
    }
    assert(m.skip(e1.len() as int) =~= w1);
    let w2 = e2 + (ed + (e3 + (ep + (e4 + tail))));
    lemma_markup_pos_concat(en, w2);
    assert(w1 =~= en + w2);
    assert(markup_pos(w1) == en.len());
    assert(w1.take(en.len() as int) =~= en);
    assert(w1.skip(en.len() as int) =~= w2);
    assert(starts_with(w2, e2)) by {
        assert(w2.take(e2.len() as int) =~= e2);
    }
    let w3 = ed + (e3 + (ep + (e4 + tail)));
    assert(w2.skip(e2.len() as int) =~= w3);
    let w4 = e3 + (ep + (e4 + tail));
    lemma_markup_pos_concat(ed, w4);
    assert(w3 =~= ed + w4);
    assert(markup_pos(w3) == ed.len());
    assert(w3.take(ed.len() as int) =~= ed);
    assert(w3.skip(ed.len() as int) =~= w4);
    assert(starts_with(w4, e3)) by {
        assert(w4.take(e3.len() as int) =~= e3);
    }
    let w5 = ep + (e4 + tail);
    assert(w4.skip(e3.len() as int) =~= w5);
    let w6 = e4 + tail;
    lemma_markup_pos_concat(ep, w6);
    assert(w5 =~= ep + w6);
    assert(markup_pos(w5) == ep.len());
    assert(w5.take(ep.len() as int) =~= ep);
    assert(w5.skip(ep.len() as int) =~= w6);
    assert(starts_with(w6, e4)) by {
        assert(w6.take(e4.len() as int) =~= e4);
    }
    assert(w6.skip(e4.len() as int) =~= tail);
    assert(tail.len() < m.len());
    lemma_unescape_escape(name_spec(v));
    lemma_unescape_escape(direct_dial(v.phonenumber));
    lemma_unescape_escape(v.phonenumber);
}

#[verifier::rlimit(100)]
proof fn lemma_parse_entries_of(rs: Seq<RecordView>)
    ensures
        parse_entries(entries_xml(rs) + "</IPPhoneDirectory>\n"@) == Some(
            rs.map_values(|v: RecordView| entry_fields(v)),
        ),
    decreases rs.len(),
{
    let fin = "</IPPhoneDirectory>\n"@;
    if rs.len() == 0 {
        let m = entries_xml(rs) + fin;
        assert(m =~= fin);
        assert(rs.map_values(|v: RecordView| entry_fields(v)) =~= Seq::<
            (Seq<char>, Seq<char>, Seq<char>),
        >::empty());
    } else {
        lemma_parse_entries_of(rs.drop_first());
        lemma_entries_front(rs);
        let v = rs.first();
        let tail = entries_xml(rs.drop_first()) + fin;
        let m = entries_xml(rs) + fin;
        vstd::seq_lib::lemma_concat_associative(
            entry_xml(v),
            entries_xml(rs.drop_first()),
            fin,
        );
        assert(m == entry_xml(v) + tail);
        lemma_parse_step(v, tail);
        assert(parse_entries(m) == Some(
            seq![entry_fields(v)] + rs.drop_first().map_values(|x: RecordView| entry_fields(x)),
        ));
        assert(seq![entry_fields(v)] + rs.drop_first().map_values(
            |x: RecordView| entry_fields(x),
        ) =~= rs.map_values(|x: RecordView| entry_fields(x)));
    }
}

/// Re-parsing the exported document recovers everything that was put
/// in: one entry per record, in order, each with the display name and
/// the two phone texts of its record.
pub proof fn lemma_document_roundtrip(rs: Seq<RecordView>)
    ensures
        parse_document(document_xml(rs)) == Some(rs.map_values(|v: RecordView| entry_fields(v))),
{
    reveal_strlit("<?xml version=\"1.0\" encoding=\"UTF-8\"?>\n<IPPhoneDirectory>\n");
    let h = "<?xml version=\"1.0\" encoding=\"UTF-8\"?>\n<IPPhoneDirectory>\n"@;
    let fin = "</IPPhoneDirectory>\n"@;
    let s = document_xml(rs);
    assert(s =~= h + (entries_xml(rs) + fin));
    assert(starts_with(s, h)) by {
        assert(s.take(h.len() as int) =~= h);
    }
    assert(s.skip(h.len() as int) =~= entries_xml(rs) + fin);
    lemma_parse_entries_of(rs);
}

/// Renders the directory document of the given records, one entry each,
/// in the order given.
pub fn export_phonebook(records: &Vec<Record>) -> (r: String)
    ensures
        r@ == document_xml(views_of(records@)),
{
    let mut out = String::new();
    out.append("<?xml version=\"1.0\" encoding=\"UTF-8\"?>\n<IPPhoneDirectory>\n");
    let n = records.len();
    let mut i: usize = 0;
    proof {
        assert(entries_xml(views_of(records@).take(0)) =~= Seq::<char>::empty());
        assert(out@ =~= "<?xml version=\"1.0\" encoding=\"UTF-8\"?>\n<IPPhoneDirectory>\n"@
            + entries_xml(views_of(records@).take(0)));
    }
    while i < n
        invariant
            n == records@.len(),
            0 <= i <= n,
            out@ == "<?xml version=\"1.0\" encoding=\"UTF-8\"?>\n<IPPhoneDirectory>\n"@
                + entries_xml(views_of(records@).take(i as int)),
        decreases n - i,
    {
        let ghost vs = views_of(records@);
        proof {
            assert(vs.take(i + 1).drop_last() =~= vs.take(i as int));
            assert(vs.take(i + 1).last() == vs[i as int]);
            assert(vs[i as int] == records@[i as int]@);
        }
        let rec = &records[i];
        let name = rec.name_for_entry();
        let mut dd = rec.phonenumber.clone();
        dd.append("@");
        dd.append(rec.phonenumber.as_str());
        dd.append(".local.mesh");
        proof {
            assert(dd@ =~= direct_dial(rec@.phonenumber));
        }
        out.append("  <DirectoryEntry>\n    <Name>");
        let en = xml_escape(name.as_str());
        out.append(en.as_str());
        out.append("</Name>\n    <Telephone>");
        let ed = xml_escape(dd.as_str());
        out.append(ed.as_str());
        out.append("</Telephone>\n    <Telephone>");
        let ep = xml_escape(rec.phonenumber.as_str());
        out.append(ep.as_str());
        out.append("</Telephone>\n  </DirectoryEntry>\n");
        proof {
            assert(out@ =~= "<?xml version=\"1.0\" encoding=\"UTF-8\"?>\n<IPPhoneDirectory>\n"@
                + entries_xml(vs.take(i + 1)));
        }
        i = i + 1;
    }
    proof {
        assert(views_of(records@).take(n as int) =~= views_of(records@));
    }
    out.append("</IPPhoneDirectory>\n");
    out
}

} // verus!
