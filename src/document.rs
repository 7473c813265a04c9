//! The set of items a picker works on, read from a package manifest, and the
//! search over them.

use vstd::prelude::*;
use crate::matching::{
    entry_for, items_view, matched, plain_entry, plain_result, rank, results_view, search_spec,
    Item, MatchResult,
};

verus! {

/// One member of a manifest's top-level object: its key; where its value is
/// an object, that object's entries in order, each value kept only where it
/// is a string; and the value as `Some(value)` is written by `Debug`.
pub struct Member {
    pub key: String,
    pub entries: Option<Vec<(String, Option<String>)>>,
    pub debug: String,
}

/// The plain content of a `Member`.
pub type MemberView = (Seq<char>, Option<Seq<(Seq<char>, Option<Seq<char>>)>>, Seq<char>);

/// What serde_json makes of a manifest's text: the members of its top-level
/// object, in the map's order, or the parser's message where the text is not
/// a JSON object.
pub uninterp spec fn parsed_manifest(text: Seq<char>) -> Result<Seq<MemberView>, Seq<char>>;

/// Relies on `serde_json::from_str` into a `serde_json::Map`, with
/// `Map::iter`, `Value::as_object`, `Value::as_str`, the `Display` of
/// `serde_json::Error` and the `Debug` of `serde_json::Value`: the result
/// depends on the text alone.
#[verifier::external_body]
fn parse_manifest(text: &str) -> (r: Result<Vec<Member>, String>)
    ensures
        parsed_view(r) == parsed_manifest(text@),
{
    serde_json::from_str::<serde_json::Map<String, serde_json::Value>>(text)
        .map(|m| m.iter().map(|(k, v)| Member {
            key: k.clone(),
            entries: v.as_object().map(|o| {
                o.iter().map(|(a, b)| (a.clone(), b.as_str().map(|t| t.to_string()))).collect()
            }),
            debug: format!("{:?}", Some(v)),
        }).collect())
        .map_err(|e| e.to_string())
}

pub open spec fn opt_view(o: Option<String>) -> Option<Seq<char>> {
    match o {
        Some(s) => Some(s@),
        None => None,
    }
}

/// Entries as plain values.
pub open spec fn entries_view(es: Seq<(String, Option<String>)>) -> Seq<(Seq<char>, Option<Seq<char>>)> {
    es.map_values(|e: (String, Option<String>)| (e.0@, opt_view(e.1)))
}

pub open spec fn member_view(m: Member) -> MemberView {
    (
        m.key@,
        match m.entries {
            Some(es) => Some(entries_view(es@)),
            None => None,
        },
        m.debug@,
    )
}

pub open spec fn parsed_view(p: Result<Vec<Member>, String>) -> Result<Seq<MemberView>, Seq<char>> {
    match p {
        Ok(ms) => Ok(ms@.map_values(|m: Member| member_view(m))),
        Err(e) => Err(e@),
    }
}

pub open spec fn doc_result_view(r: Result<Document, String>) -> Result<Seq<(Seq<char>, Seq<char>)>, Seq<char>> {
    match r {
        Ok(d) => Ok(items_view(d.scripts@)),
        Err(e) => Err(e@),
    }
}

/// Every entry holds a string.
pub open spec fn all_strings(es: Seq<(Seq<char>, Option<Seq<char>>)>) -> bool {
    forall|i: int| 0 <= i < es.len() ==> (#[trigger] es[i]).1 is Some
}

/// The item that an entry with a string value names.
pub open spec fn entry_item(e: (Seq<char>, Option<Seq<char>>)) -> (Seq<char>, Seq<char>) {
    (e.0, e.1->0)
}

/// The items that entries name where every value is a string; else the error
/// that names the first entry whose value is not.
pub open spec fn entries_outcome(
    es: Seq<(Seq<char>, Option<Seq<char>>)>,
    r: Result<Seq<(Seq<char>, Seq<char>)>, Seq<char>>,
) -> bool {
    match r {
        Ok(items) => all_strings(es) && items == es.map_values(
            |e: (Seq<char>, Option<Seq<char>>)| entry_item(e),
        ),
        Err(msg) => exists|i: int|
            0 <= i < es.len() && (#[trigger] es[i]).1 is None && (forall|j: int|
                0 <= j < i ==> (#[trigger] es[j]).1 is Some) && msg == es[i].0 + " is not a string"@,
    }
}

/// The first member whose key is `key`.
pub open spec fn find_member(ms: Seq<MemberView>, key: Seq<char>) -> Option<MemberView>
    decreases ms.len(),
{
    if ms.len() == 0 {
        None
    } else if ms[0].0 == key {
        Some(ms[0])
    } else {
        find_member(ms.drop_first(), key)
    }
}

/// What reading a manifest yields, given what the parser made of it: the
/// string entries of the object under `scripts`, or the error for a text
/// that does not parse, for a missing `scripts` member, for one that is not
/// an object, and for a value that is not a string.
pub open spec fn manifest_outcome(
    p: Result<Seq<MemberView>, Seq<char>>,
    r: Result<Seq<(Seq<char>, Seq<char>)>, Seq<char>>,
) -> bool {
    match p {
        Err(e) => r == Err::<Seq<(Seq<char>, Seq<char>)>, Seq<char>>(
            "Failed parsing json: '"@ + e + "'!"@,
        ),
        Ok(ms) => match find_member(ms, "scripts"@) {
            None => r == Err::<Seq<(Seq<char>, Seq<char>)>, Seq<char>>("Key scripts not found!"@),
            Some(m) => match m.1 {
                None => r == Err::<Seq<(Seq<char>, Seq<char>)>, Seq<char>>(
                    "Scripts key not an object: "@ + m.2,
                ),
                Some(es) => entries_outcome(es, r),
            },
        },
    }
}

/// The value stored under the first item whose key is `key`.
pub open spec fn lookup(items: Seq<(Seq<char>, Seq<char>)>, key: Seq<char>) -> Option<Seq<char>>
    decreases items.len(),
{
    if items.len() == 0 {
        None
    } else if items[0].0 == key {
        Some(items[0].1)
    } else {
        lookup(items.drop_first(), key)
    }
}

/// The items of the picker, in the order in which they are listed.
pub struct Document {
    pub scripts: Vec<Item>,
}

impl Document {
    /// The items named by `entries`, in order; an error naming the first
    /// entry whose value is not a string.
    pub fn from_entries(entries: Vec<(String, Option<String>)>) -> (r: Result<Document, String>)
        ensures
            entries_outcome(entries_view(entries@), doc_result_view(r)),
    {
        let mut scripts: Vec<Item> = Vec::new();
        let ghost all = entries@;
        let ghost ev = entries_view(entries@);
        let mut rest = entries;
        let ghost n = all.len();
        while rest.len() > 0
            invariant
                rest@.len() <= n,
                all.len() == n,
                ev.len() == n,
                all == entries@,
                ev == entries_view(all),
                rest@ == all.skip(n - rest@.len()),
                forall|j: int| 0 <= j < n - rest@.len() ==> (#[trigger] ev[j]).1 is Some,
                scripts@.len() == n - rest@.len(),
                items_view(scripts@) == ev.take(n - rest@.len()).map_values(
                    |e: (Seq<char>, Option<Seq<char>>)| entry_item(e),
                ),
            decreases rest@.len(),
        {
            let ghost k = n - rest@.len();
            let ghost prev = rest@;
            let (key, value) = rest.remove(0);
            assert(all[k] == prev[0]) by {
                assert(all.skip(k)[0] == all[k]);
            }
            assert(ev[k] == (key@, opt_view(value)));
            match value {
                Some(v) => {
                    let ghost before = scripts@;
                    scripts.push(Item { key, value: v });
                    proof {
                        assert(rest@ =~= all.skip(k + 1));
                        assert(items_view(scripts@) =~= ev.take(k + 1).map_values(
                            |e: (Seq<char>, Option<Seq<char>>)| entry_item(e),
                        )) by {
                            assert forall|i: int| 0 <= i < k + 1 implies items_view(scripts@)[i]
                                == ev.take(k + 1).map_values(
                                |e: (Seq<char>, Option<Seq<char>>)| entry_item(e),
                            )[i] by {
                                if i < k {
                                    assert(scripts@[i] == before[i]);
                                    assert(items_view(before)[i] == before[i]@);
                                    assert(items_view(scripts@)[i] == scripts@[i]@);
                                    assert(ev.take(k + 1)[i] == ev.take(k)[i]);
                                }
                            }
                        }
                    }
                },
                None => {
                    let mut msg = key;
                    msg.append(" is not a string");
                    proof {
                        assert(ev[k].1 is None);
                        assert(msg@ == ev[k].0 + " is not a string"@);
                        assert(forall|j: int| 0 <= j < k ==> (#[trigger] ev[j]).1 is Some);
                    }
                    return Err(msg);
                },
            }
        }
        proof {
            assert(ev.take(n as int) =~= ev);
            assert(all_strings(ev));
        }
        Ok(Document { scripts })
    }

    /// The items that a parsed manifest names: those of the object under its
    /// `scripts` member.
    pub fn manifest_document(parsed: Result<Vec<Member>, String>) -> (r: Result<Document, String>)
        ensures
            manifest_outcome(parsed_view(parsed), doc_result_view(r)),
    {
        let mut members = match parsed {
            Ok(ms) => ms,
            Err(e) => {
                let mut msg = String::from_str("Failed parsing json: '");
                msg.append(e.as_str());
                msg.append("'!");
                return Err(msg);
            },
        };
        let ghost ms = members@.map_values(|m: Member| member_view(m));
        assert(parsed_view(parsed) == Ok::<Seq<MemberView>, Seq<char>>(ms));
        let wanted = String::from_str("scripts");
        let mut i: usize = 0;
        assert(ms.skip(0) =~= ms);
        while i < members.len()
            invariant
                i <= members@.len(),
                ms == members@.map_values(|m: Member| member_view(m)),
                parsed_view(parsed) == Ok::<Seq<MemberView>, Seq<char>>(ms),
                wanted@ == "scripts"@,
                find_member(ms, "scripts"@) == find_member(ms.skip(i as int), "scripts"@),
            decreases members@.len() - i,
        {
            let ghost rest = ms.skip(i as int);
            assert(rest[0] == member_view(members@[i as int]));
            if members[i].key == wanted {
                let ghost whole = members@;
                let m = members.remove(i);
                assert(m == whole[i as int]);
                assert(find_member(ms, "scripts"@) == Some(member_view(m)));
                return match m.entries {
                    Some(es) => {
                        assert(member_view(m).1 == Some(entries_view(es@)));
                        Document::from_entries(es)
                    },
                    None => {
                        let mut msg = String::from_str("Scripts key not an object: ");
                        msg.append(m.debug.as_str());
                        Err(msg)
                    },
                };
            }
            assert(rest.drop_first() =~= ms.skip(i + 1));
            i += 1;
        }
        Err(String::from_str("Key scripts not found!"))
    }

    /// Reads a package manifest: the string entries of the object under its
    /// `scripts` member, in the manifest's own order.
    pub fn parse_script(text: &str) -> (r: Result<Document, String>)
        ensures
            manifest_outcome(parsed_manifest(text@), doc_result_view(r)),
    {
        Document::manifest_document(parse_manifest(text))
    }

    /// The command stored under `key`, if an item has that key: what an
    /// executor runs for a confirmed key. (Each listed entry carries its own
    /// key, so no look-up from shown text back to a key is needed.)
    pub fn get_script(&self, key: &str) -> (r: Option<String>)
        ensures
            match r {
                None => lookup(items_view(self.scripts@), key@) is None,
                Some(v) => lookup(items_view(self.scripts@), key@) == Some(v@),
            },
    {
        let wanted = key.to_owned();
        let mut i: usize = 0;
        assert(items_view(self.scripts@).skip(0) =~= items_view(self.scripts@));
        while i < self.scripts.len()
            invariant
                i <= self.scripts@.len(),
                wanted@ == key@,
                lookup(items_view(self.scripts@), key@) == lookup(
                    items_view(self.scripts@).skip(i as int),
                    key@,
                ),
            decreases self.scripts@.len() - i,
        {
            let ghost rest = items_view(self.scripts@).skip(i as int);
            assert(rest[0] == self.scripts@[i as int]@);
            if self.scripts[i].key == wanted {
                return Some(self.scripts[i].value.clone());
            }
            assert(rest.drop_first() =~= items_view(self.scripts@).skip(i + 1));
            i += 1;
        }
        None
    }

    /// The entries that `query` selects, in the order in which they are
    /// listed (see `search_spec`).
    pub fn search(&self, query: &str) -> (r: Vec<MatchResult>)
        ensures
            results_view(r@) == search_spec(items_view(self.scripts@), query@),
    {
        let ghost items = items_view(self.scripts@);
        let mut out: Vec<MatchResult> = Vec::new();
        let mut i: usize = 0;
        if query.is_empty() {
            while i < self.scripts.len()
                invariant
                    i <= self.scripts@.len(),
                    items == items_view(self.scripts@),
                    out@.len() == i,
                    results_view(out@) == items.take(i as int).map_values(
                        |it: (Seq<char>, Seq<char>)| plain_entry(it),
                    ),
                decreases self.scripts@.len() - i,
            {
                let ghost before = out@;
                out.push(plain_result(&self.scripts[i]));
                proof {
                    assert(items[i as int] == self.scripts@[i as int]@);
                    assert(results_view(out@) =~= items.take(i + 1).map_values(
                        |it: (Seq<char>, Seq<char>)| plain_entry(it),
                    )) by {
                        assert forall|j: int| 0 <= j < i + 1 implies results_view(out@)[j]
                            == items.take(i + 1).map_values(
                            |it: (Seq<char>, Seq<char>)| plain_entry(it),
                        )[j] by {
                            if j < i {
                                assert(out@[j] == before[j]);
                                assert(results_view(before)[j] == before[j]@);
                            }
                        }
                    }
                }
                i += 1;
            }
            assert(items.take(i as int) =~= items);
            out
        } else {
            while i < self.scripts.len()
                invariant
                    i <= self.scripts@.len(),
                    items == items_view(self.scripts@),
                    results_view(out@) == matched(items.take(i as int), query@),
                decreases self.scripts@.len() - i,
            {
                let ghost before = out@;
                let found = entry_for(&self.scripts[i], query);
                proof {
                    assert(items.take(i + 1).drop_last() =~= items.take(i as int));
                    assert(items[i as int] == self.scripts@[i as int]@);
                }
                match found {
                    Some(m) => {
                        out.push(m);
                        assert(results_view(out@) =~= results_view(before).push(out@.last()@))
                            by {
                            assert forall|j: int| 0 <= j < before.len() implies results_view(
                                out@,
                            )[j] == results_view(before)[j] by {
                                assert(out@[j] == before[j]);
                                assert(results_view(before)[j] == before[j]@);
                            }
                        }
                    },
                    None => {},
                }
                i += 1;
            }
            assert(items.take(i as int) =~= items);
            rank(out)
        }
    }
}

} // verus!
