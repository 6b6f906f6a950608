use vstd::prelude::*;

use crate::entry::{models, Entry, EntryModel};

verus! {

// The persistence layer stores the entry list as text, one record per entry:
// two flag characters (completed, then editing), the description with '\\'
// and '\n' escaped, and a terminating newline.  Decoding anything malformed
// falls back to the empty list.

/// One description character in encoded form.
pub open spec fn escaped_char(c: char) -> Seq<char> {
    if c == '\\' {
        seq!['\\', '\\']
    } else if c == '\n' {
        seq!['\\', 'n']
    } else {
        seq![c]
    }
}

/// A description with its record characters escaped.
pub open spec fn escaped(s: Seq<char>) -> Seq<char>
    decreases s.len(),
{
    if s.len() == 0 {
        Seq::empty()
    } else {
        escaped_char(s[0]) + escaped(s.drop_first())
    }
}

/// The character a flag is stored as.
pub open spec fn flag_char(b: bool) -> char {
    if b {
        '1'
    } else {
        '0'
    }
}

/// One entry as a record.
pub open spec fn encoded_entry(e: EntryModel) -> Seq<char> {
    seq![flag_char(e.completed), flag_char(e.editing)] + escaped(e.description) + seq!['\n']
}

/// The whole entry sequence, record after record.
pub open spec fn encoded(entries: Seq<EntryModel>) -> Seq<char>
    decreases entries.len(),
{
    if entries.len() == 0 {
        Seq::empty()
    } else {
        encoded_entry(entries[0]) + encoded(entries.drop_first())
    }
}

/// Read an escaped description up to its newline terminator; yield the
/// description and the rest of the text.
pub open spec fn parse_description(t: Seq<char>) -> Option<(Seq<char>, Seq<char>)>
    decreases t.len(),
{
    if t.len() == 0 {
        None
    } else if t[0] == '\n' {
        Some((Seq::empty(), t.drop_first()))
    } else if t[0] == '\\' {
        if t.len() < 2 {
            None
        } else {
            let c = if t[1] == 'n' {
                '\n'
            } else {
                t[1]
            };
            match parse_description(t.subrange(2, t.len() as int)) {
                Some(p) => Some((seq![c] + p.0, p.1)),
                None => None,
            }
        }
    } else {
        match parse_description(t.drop_first()) {
            Some(p) => Some((seq![t[0]] + p.0, p.1)),
            None => None,
        }
    }
}

/// Read one stored flag.
pub open spec fn parse_flag(c: char) -> Option<bool> {
    if c == '1' {
        Some(true)
    } else if c == '0' {
        Some(false)
    } else {
        None
    }
}

/// Read one record; yield the entry and the rest of the text.
pub open spec fn parse_entry(t: Seq<char>) -> Option<(EntryModel, Seq<char>)> {
    if t.len() < 2 {
        None
    } else {
        match (parse_flag(t[0]), parse_flag(t[1])) {
            (Some(completed), Some(editing)) => match parse_description(
                t.subrange(2, t.len() as int),
            ) {
                Some(p) => Some(
                    (EntryModel { description: p.0, completed, editing }, p.1),
                ),
                None => None,
            },
            _ => None,
        }
    }
}

/// A successful description parse consumes at least its terminator.
proof fn lemma_parse_description_consumes(t: Seq<char>)
    ensures
        parse_description(t) matches Some(p) ==> p.1.len() < t.len(),
    decreases t.len(),
{
    if t.len() == 0 {
    } else if t[0] == '\n' {
    } else if t[0] == '\\' {
        if t.len() >= 2 {
            lemma_parse_description_consumes(t.subrange(2, t.len() as int));
        }
    } else {
        lemma_parse_description_consumes(t.drop_first());
    }
}

/// Read records until the text runs out.
pub open spec fn parse_entries(t: Seq<char>) -> Option<Seq<EntryModel>>
    decreases t.len(),
    via parse_entries_decreases
{
    if t.len() == 0 {
        Some(Seq::empty())
    } else {
        match parse_entry(t) {
            Some(p) => match parse_entries(p.1) {
                Some(es) => Some(seq![p.0] + es),
                None => None,
            },
            None => None,
        }
    }
}

#[via_fn]
proof fn parse_entries_decreases(t: Seq<char>) {
    if t.len() >= 2 {
        lemma_parse_description_consumes(t.subrange(2, t.len() as int));
    }
}

/// What decoding yields: the parsed entries, or the empty sequence when the
/// text is malformed.
pub open spec fn decoded_or_empty(t: Seq<char>) -> Seq<EntryModel> {
    match parse_entries(t) {
        Some(es) => es,
        None => Seq::empty(),
    }
}

/// Escaping distributes over concatenation.
proof fn lemma_escaped_add(a: Seq<char>, b: Seq<char>)
    ensures
        escaped(a + b) == escaped(a) + escaped(b),
    decreases a.len(),
{
    if a.len() == 0 {
        assert(a + b =~= b);
        assert(escaped(a) + escaped(b) =~= escaped(b));
    } else {
        assert((a + b)[0] == a[0]);
        assert((a + b).drop_first() =~= a.drop_first() + b);
        lemma_escaped_add(a.drop_first(), b);
        assert(escaped_char(a[0]) + (escaped(a.drop_first()) + escaped(b)) =~= (escaped_char(
            a[0],
        ) + escaped(a.drop_first())) + escaped(b));
    }
}

/// Encoding distributes over concatenation.
proof fn lemma_encoded_add(a: Seq<EntryModel>, b: Seq<EntryModel>)
    ensures
        encoded(a + b) == encoded(a) + encoded(b),
    decreases a.len(),
{
    if a.len() == 0 {
        assert(a + b =~= b);
        assert(encoded(a) + encoded(b) =~= encoded(b));
    } else {
        assert((a + b)[0] == a[0]);
        assert((a + b).drop_first() =~= a.drop_first() + b);
        lemma_encoded_add(a.drop_first(), b);
        assert(encoded_entry(a[0]) + (encoded(a.drop_first()) + encoded(b)) =~= (encoded_entry(
            a[0],
        ) + encoded(a.drop_first())) + encoded(b));
    }
}

/// Parsing an escaped description followed by its terminator recovers the
/// description exactly and leaves the rest untouched.
proof fn lemma_parse_escaped(d: Seq<char>, rest: Seq<char>)
    ensures
        parse_description(escaped(d) + seq!['\n'] + rest) == Some((d, rest)),
    decreases d.len(),
{
    let t = escaped(d) + seq!['\n'] + rest;
    if d.len() == 0 {
        assert(t =~= seq!['\n'] + rest);
        assert(t[0] == '\n');
        assert(t.drop_first() =~= rest);
        assert(d =~= Seq::<char>::empty());
    } else {
        let c = d[0];
        let tail = escaped(d.drop_first()) + seq!['\n'] + rest;
        lemma_parse_escaped(d.drop_first(), rest);
        if c == '\\' {
            assert(t =~= seq!['\\', '\\'] + tail);
            assert(t[0] == '\\' && t[1] == '\\');
            assert(t.subrange(2, t.len() as int) =~= tail);
            assert(seq![c] + (parse_description(tail)->Some_0.0) =~= d);
        } else if c == '\n' {
            assert(t =~= seq!['\\', 'n'] + tail);
            assert(t[0] == '\\' && t[1] == 'n');
            assert(t.subrange(2, t.len() as int) =~= tail);
            assert(seq![c] + (parse_description(tail)->Some_0.0) =~= d);
        } else {
            assert(t =~= seq![c] + tail);
            assert(t[0] == c);
            assert(t.drop_first() =~= tail);
            assert(seq![c] + (parse_description(tail)->Some_0.0) =~= d);
        }
    }
}

/// Parsing an encoded record recovers the entry exactly.
proof fn lemma_parse_encoded_entry(e: EntryModel, rest: Seq<char>)
    ensures
        parse_entry(encoded_entry(e) + rest) == Some((e, rest)),
{
    let t = encoded_entry(e) + rest;
    assert(t[0] == flag_char(e.completed));
    assert(t[1] == flag_char(e.editing));
    assert(t.subrange(2, t.len() as int) =~= escaped(e.description) + seq!['\n'] + rest);
    lemma_parse_escaped(e.description, rest);
}

/// Relies on String::push: appends the one character at the end.
#[verifier::external_body]
fn push_char(s: &mut String, c: char)
    ensures
        final(s)@ == old(s)@.push(c),
{
    s.push(c);
}

/// Encode `entries` as the persistence layer stores them.
pub fn encode(entries: &Vec<Entry>) -> (r: String)
    ensures
        r@ == encoded(models(entries@)),
{
    let ghost s = models(entries@);
    let mut out = String::new();
    let mut i: usize = 0;
    while i < entries.len()
        invariant
            i <= entries.len(),
            s == models(entries@),
            out@ == encoded(s.take(i as int)),
        decreases entries.len() - i,
    {
        let ghost record_start = out@;
        let e = &entries[i];
        push_char(&mut out, if e.completed { '1' } else { '0' });
        push_char(&mut out, if e.editing { '1' } else { '0' });
        proof {
            assert(out@ =~= record_start + seq![
                flag_char(s[i as int].completed),
                flag_char(s[i as int].editing),
            ]);
        }
        let ghost flags_done = out@;
        let ghost d = s[i as int].description;
        let dlen = e.description.as_str().unicode_len();
        let mut k: usize = 0;
        while k < dlen
            invariant
                k <= dlen,
                dlen == d.len(),
                d == e.description@,
                out@ == flags_done + escaped(d.take(k as int)),
            decreases dlen - k,
        {
            let ghost before = out@;
            let c = e.description.as_str().get_char(k);
            if c == '\\' {
                push_char(&mut out, '\\');
                push_char(&mut out, '\\');
            } else if c == '\n' {
                push_char(&mut out, '\\');
                push_char(&mut out, 'n');
            } else {
                push_char(&mut out, c);
            }
            proof {
                assert(out@ =~= before + escaped_char(d[k as int]));
                assert(d.take(k as int + 1) =~= d.take(k as int) + seq![d[k as int]]);
                lemma_escaped_add(d.take(k as int), seq![d[k as int]]);
                reveal_with_fuel(escaped, 2);
                assert(seq![d[k as int]].drop_first() =~= Seq::<char>::empty());
                assert(escaped(seq![d[k as int]]) =~= escaped_char(d[k as int]));
                assert(out@ =~= flags_done + escaped(d.take(k as int + 1)));
            }
            k = k + 1;
        }
        push_char(&mut out, '\n');
        proof {
            assert(d.take(dlen as int) =~= d);
            assert(out@ =~= record_start + encoded_entry(s[i as int]));
            assert(s.take(i as int + 1) =~= s.take(i as int) + seq![s[i as int]]);
            lemma_encoded_add(s.take(i as int), seq![s[i as int]]);
            reveal_with_fuel(encoded, 2);
            assert(seq![s[i as int]].drop_first() =~= Seq::<EntryModel>::empty());
            assert(encoded(seq![s[i as int]]) =~= encoded_entry(s[i as int]));
            assert(out@ =~= encoded(s.take(i as int + 1)));
        }
        i = i + 1;
    }
    proof {
        assert(s.take(entries@.len() as int) =~= s);
    }
    out
}

/// Scan one escaped description starting at `pos`; yield the description and
/// the position just past its terminator, or nothing if the text is
/// malformed.
fn scan_description(text: &str, pos: usize) -> (r: Option<(String, usize)>)
    requires
        pos <= text@.len(),
    ensures
        match r {
            Some(p) => {
                &&& pos <= p.1 <= text@.len()
                &&& parse_description(text@.subrange(pos as int, text@.len() as int)) == Some(
                    (p.0@, text@.subrange(p.1 as int, text@.len() as int)),
                )
            },
            None => parse_description(
                text@.subrange(pos as int, text@.len() as int),
            ) is None,
        },
{
    let n = text.unicode_len();
    let ghost t0 = text@.subrange(pos as int, n as int);
    let mut desc = String::new();
    let mut q: usize = pos;
    while q < n
        invariant
            pos <= q <= n,
            n == text@.len(),
            t0 == text@.subrange(pos as int, n as int),
            match parse_description(text@.subrange(q as int, n as int)) {
                Some(p) => parse_description(t0) == Some((desc@ + p.0, p.1)),
                None => parse_description(t0) is None,
            },
        decreases n - q,
    {
        let ghost tq = text@.subrange(q as int, n as int);
        let c = text.get_char(q);
        proof {
            assert(tq[0] == c);
            assert(tq.drop_first() =~= text@.subrange(q as int + 1, n as int));
        }
        if c == '\n' {
            proof {
                assert(parse_description(tq) == Some(
                    (Seq::<char>::empty(), text@.subrange(q as int + 1, n as int)),
                ));
                assert(desc@ + Seq::<char>::empty() =~= desc@);
            }
            return Some((desc, q + 1));
        } else if c == '\\' {
            if q + 1 == n {
                proof {
                    assert(tq.len() == 1);
                    assert(parse_description(tq) is None);
                }
                return None;
            }
            let c2 = text.get_char(q + 1);
            let decoded = if c2 == 'n' { '\n' } else { c2 };
            proof {
                assert(tq[1] == c2);
                assert(tq.subrange(2, tq.len() as int) =~= text@.subrange(
                    q as int + 2,
                    n as int,
                ));
            }
            let ghost desc_before = desc@;
            push_char(&mut desc, decoded);
            proof {
                let t2 = text@.subrange(q as int + 2, n as int);
                match parse_description(t2) {
                    Some(p2) => {
                        assert(parse_description(tq) == Some((seq![decoded] + p2.0, p2.1)));
                        assert(desc@ + p2.0 =~= desc_before + (seq![decoded] + p2.0));
                    },
                    None => {
                        assert(parse_description(tq) is None);
                    },
                }
            }
            q = q + 2;
        } else {
            let ghost desc_before = desc@;
            push_char(&mut desc, c);
            proof {
                let t1 = text@.subrange(q as int + 1, n as int);
                match parse_description(t1) {
                    Some(p1) => {
                        assert(parse_description(tq) == Some((seq![c] + p1.0, p1.1)));
                        assert(desc@ + p1.0 =~= desc_before + (seq![c] + p1.0));
                    },
                    None => {
                        assert(parse_description(tq) is None);
                    },
                }
            }
            q = q + 1;
        }
    }
    proof {
        assert(text@.subrange(q as int, n as int).len() == 0);
    }
    None
}

/// Decode the persistence layer's text; malformed or missing data falls back
/// to the empty list.
pub fn decode(text: &str) -> (r: Vec<Entry>)
    ensures
        models(r@) == decoded_or_empty(text@),
{
    let n = text.unicode_len();
    let mut out: Vec<Entry> = Vec::new();
    let mut pos: usize = 0;
    proof {
        assert(text@.subrange(0, n as int) =~= text@);
        match parse_entries(text@) {
            Some(es) => {
                assert(models(out@) + es =~= es);
            },
            None => {},
        }
    }
    while pos < n
        invariant
            pos <= n,
            n == text@.len(),
            match parse_entries(text@.subrange(pos as int, n as int)) {
                Some(es) => parse_entries(text@) == Some(models(out@) + es),
                None => parse_entries(text@) is None,
            },
        decreases n - pos,
    {
        let ghost tp = text@.subrange(pos as int, n as int);
        if pos + 1 == n {
            // one character cannot hold the two flags
            proof {
                assert(tp.len() == 1);
                assert(parse_entries(tp) is None);
            }
            let empty: Vec<Entry> = Vec::new();
            proof {
                assert(models(empty@) =~= Seq::<EntryModel>::empty());
            }
            return empty;
        }
        let c0 = text.get_char(pos);
        let c1 = text.get_char(pos + 1);
        proof {
            assert(tp[0] == c0);
            assert(tp[1] == c1);
        }
        if (c0 != '1' && c0 != '0') || (c1 != '1' && c1 != '0') {
            proof {
                assert(parse_entry(tp) is None);
                assert(parse_entries(tp) is None);
            }
            let empty: Vec<Entry> = Vec::new();
            proof {
                assert(models(empty@) =~= Seq::<EntryModel>::empty());
            }
            return empty;
        }
        let completed = c0 == '1';
        let editing = c1 == '1';
        proof {
            assert(tp.subrange(2, tp.len() as int) =~= text@.subrange(
                pos as int + 2,
                n as int,
            ));
        }
        match scan_description(text, pos + 2) {
            Some((description, next)) => {
                let ghost prev = models(out@);
                let ghost e = EntryModel { description: description@, completed, editing };
                proof {
                    assert(parse_entry(tp) == Some((e, text@.subrange(next as int, n as int))));
                }
                out.push(Entry { description, completed, editing });
                proof {
                    assert(models(out@) =~= prev + seq![e]);
                    match parse_entries(text@.subrange(next as int, n as int)) {
                        Some(es2) => {
                            assert(parse_entries(tp) == Some(seq![e] + es2));
                            assert(models(out@) + es2 =~= prev + (seq![e] + es2));
                        },
                        None => {
                            assert(parse_entries(tp) is None);
                        },
                    }
                }
                pos = next;
            },
            None => {
                proof {
                    assert(parse_entry(tp) is None);
                    assert(parse_entries(tp) is None);
                }
                let empty: Vec<Entry> = Vec::new();
                proof {
                    assert(models(empty@) =~= Seq::<EntryModel>::empty());
                }
                return empty;
            },
        }
    }
    proof {
        assert(text@.subrange(pos as int, n as int).len() == 0);
        assert(models(out@) + Seq::<EntryModel>::empty() =~= models(out@));
    }
    out
}

/// Round trip: parsing what was encoded yields the entries unchanged, order
/// and field values included.
pub proof fn lemma_codec_round_trip(entries: Seq<EntryModel>)
    ensures
        parse_entries(encoded(entries)) == Some(entries),
    decreases entries.len(),
{
    if entries.len() == 0 {
        assert(entries =~= Seq::<EntryModel>::empty());
    } else {
        let e = entries[0];
        let rest = entries.drop_first();
        lemma_parse_encoded_entry(e, encoded(rest));
        lemma_codec_round_trip(rest);
        assert(encoded(entries).len() != 0);
        assert(seq![e] + rest =~= entries);
    }
}

} // verus!
