//! The script faces of a bundle: `import` reads a script (reconciling against
//! the collection oracle's answer where one is given), `export` writes one.

use vstd::prelude::*;

use crate::bundle::{Bundle, BundleCollectionLink, BundleView, CollectionLinkView};
use crate::chars::chars_of;
use crate::codec::{parse_raw, spec_parse};
use crate::errors::BundleError;
use crate::numtext::{dec_digits, u64_to_string};
use crate::reconcile::{reconcile, reconcile_spec};
use crate::timefmt::{format_rfc2822, rfc2822_format, spec_clamp_ts, clamp_ts, TS_MAX};

verus! {

/// The bundle that importing a script yields: the parsed raw bundle, the
/// clock's reading where the script gave no usable `updated`, and the
/// reconciler's partition where a collection is present and the oracle
/// answered. The id is left 0 for the store to assign.
pub open spec fn spec_import(s: Seq<char>, now: i64, members: Option<Seq<u64>>) -> Result<
    BundleView,
    BundleError,
> {
    let raw = spec_parse(s);
    if raw.items.len() == 0 {
        Err(BundleError::NoItemsFound)
    } else {
        let updated = match raw.updated {
            Some(t) => t,
            None => spec_clamp_ts(now),
        };
        match raw.collection {
            None => Ok(
                BundleView { id: 0, name: raw.name, updated, collection: None, items: raw.items },
            ),
            Some(cid) => match members {
                None => Ok(
                    BundleView {
                        id: 0,
                        name: raw.name,
                        updated,
                        collection: Some(
                            CollectionLinkView {
                                id: cid,
                                included: Seq::empty(),
                                excluded: Seq::empty(),
                            },
                        ),
                        items: raw.items,
                    },
                ),
                Some(ms) => {
                    let p = reconcile_spec(raw.items, ms);
                    Ok(
                        BundleView {
                            id: 0,
                            name: raw.name,
                            updated,
                            collection: Some(
                                CollectionLinkView { id: cid, included: p.1, excluded: p.2 },
                            ),
                            items: p.0,
                        },
                    )
                },
            },
        }
    }
}

/// The collection id a script names, if any; what the oracle must be asked
/// about before the import is completed.
pub open spec fn spec_collection_of(s: Seq<char>) -> Option<u64> {
    spec_parse(s).collection
}

/// First name recorded for the id, if any.
pub open spec fn name_of(names: Seq<(u64, Seq<char>)>, id: u64) -> Option<Seq<char>>
    decreases names.len(),
{
    if names.len() == 0 {
        None
    } else if names[0].0 == id {
        Some(names[0].1)
    } else {
        name_of(names.drop_first(), id)
    }
}

pub open spec fn names_view(names: Seq<(u64, String)>) -> Seq<(u64, Seq<char>)> {
    names.map(|i: int, p: (u64, String)| (p.0, p.1@))
}

/// One item's line: the quoted decimal id, and the display name as a trailing
/// comment where one is known.
pub open spec fn item_line(id: u64, names: Seq<(u64, Seq<char>)>) -> Seq<char> {
    match name_of(names, id) {
        Some(nm) => "\""@ + dec_digits(id as nat) + "\" -- "@ + nm,
        None => "\""@ + dec_digits(id as nat) + "\""@,
    }
}

/// The items' lines, each newline-terminated.
pub open spec fn items_text(ids: Seq<u64>, names: Seq<(u64, Seq<char>)>) -> Seq<char>
    decreases ids.len(),
{
    if ids.len() == 0 {
        Seq::empty()
    } else {
        item_line(ids[0], names) + seq!['\n'] + items_text(ids.drop_first(), names)
    }
}

/// The collection trailer: a blank line, the comment block naming the
/// collection, and the included items' lines.
pub open spec fn collection_text(
    c: CollectionLinkView,
    names: Seq<(u64, Seq<char>)>,
    cname: Option<Seq<char>>,
) -> Seq<char> {
    "\n-- Collection\n"@ + (match cname {
        Some(n) => "-- "@ + n + "\n"@,
        None => Seq::empty(),
    }) + "-- https://steamcommunity.com/sharedfiles/filedetails/?id="@ + dec_digits(c.id as nat)
        + "\n"@ + items_text(c.included, names)
}

/// The script a bundle exports to.
pub open spec fn export_text(
    b: BundleView,
    names: Seq<(u64, Seq<char>)>,
    cname: Option<Seq<char>>,
) -> Seq<char> {
    "-- generated by gmpublisher\n"@ + "-- https://gmpublisher.download\n"@ + "--# bundle\n"@
        + "--# name "@ + b.name + "\n"@ + (match b.collection {
        Some(c) => "--# collection "@ + dec_digits(c.id as nat) + "\n"@,
        None => Seq::empty(),
    }) + "--# updated "@ + rfc2822_format(b.updated) + "\n"@ + "for _,w in ipairs({\n\n"@
        + items_text(b.items, names) + (match b.collection {
        Some(c) => collection_text(c, names, cname),
        None => Seq::empty(),
    }) + "\n}) do resource.AddWorkshop(w) end"@
}

/// First recorded display name for the id, if any.
fn lookup_name<'a>(names: &'a Vec<(u64, String)>, id: u64) -> (r: Option<&'a String>)
    ensures
        match r {
            Some(nm) => name_of(names_view(names@), id) == Some(nm@),
            None => name_of(names_view(names@), id) is None,
        },
{
    let ghost nv = names_view(names@);
    let mut i: usize = 0;
    proof {
        assert(nv.skip(0) =~= nv);
    }
    while i < names.len()
        invariant
            i <= names@.len(),
            nv == names_view(names@),
            name_of(nv.skip(i as int), id) == name_of(nv, id),
        decreases names@.len() - i,
    {
        let ghost rest = nv.skip(i as int);
        proof {
            assert(rest[0] == (names@[i as int].0, names@[i as int].1@));
            assert(rest.drop_first() =~= nv.skip(i as int + 1));
        }
        if names[i].0 == id {
            return Some(&names[i].1);
        }
        i = i + 1;
    }
    proof {
        assert(nv.skip(names@.len() as int) =~= Seq::<(u64, Seq<char>)>::empty());
    }
    None
}

/// Appends the items' lines.
fn write_items(out: &mut String, ids: &Vec<u64>, names: &Vec<(u64, String)>)
    ensures
        final(out)@ == old(out)@ + items_text(ids@, names_view(names@)),
{
    let ghost base = out@;
    let ghost nv = names_view(names@);
    let mut i: usize = 0;
    proof {
        assert(ids@.skip(0) =~= ids@);
        assert(base + Seq::<char>::empty() =~= base);
    }
    while i < ids.len()
        invariant
            i <= ids@.len(),
            nv == names_view(names@),
            out@ + items_text(ids@.skip(i as int), nv) == base + items_text(ids@, nv),
        decreases ids@.len() - i,
    {
        let ghost rest = ids@.skip(i as int);
        let ghost prev = out@;
        proof {
            assert(rest[0] == ids@[i as int]);
            assert(rest.drop_first() =~= ids@.skip(i as int + 1));
        }
        let id = ids[i];
        out.append("\"");
        let ds = u64_to_string(id);
        out.append(ds.as_str());
        match lookup_name(names, id) {
            Some(nm) => {
                out.append("\" -- ");
                out.append(nm.as_str());
                out.append("\n");
                proof {
                    reveal_strlit("\n");
                    assert(out@ =~= prev + item_line(id, nv) + seq!['\n']);
                }
            },
            None => {
                out.append("\"\n");
                proof {
                    reveal_strlit("\"");
                    reveal_strlit("\"\n");
                    assert(out@ =~= prev + item_line(id, nv) + seq!['\n']);
                }
            },
        }
        proof {
            assert(out@ + items_text(ids@.skip(i as int + 1), nv) =~= base + items_text(ids@, nv));
        }
        i = i + 1;
    }
    proof {
        assert(ids@.skip(ids@.len() as int) =~= Seq::<u64>::empty());
        assert(out@ + Seq::<char>::empty() =~= out@);
    }
}

impl Bundle {
    /// Reads a bundle out of a script. `now_secs` is the clock's reading,
    /// used when the script carries no usable `updated` directive; `members`
    /// is the collection oracle's answer for the collection the script names
    /// (`None` where there is none, or where the oracle could not resolve
    /// it). The returned bundle carries id 0 until the store assigns one.
    pub fn import(src: &str, now_secs: i64, members: Option<&Vec<u64>>) -> (r: Result<
        Bundle,
        BundleError,
    >)
        ensures
            ({
                let m = match members {
                    Some(v) => Some(v@),
                    None => None,
                };
                match (r, spec_import(src@, now_secs, m)) {
                    (Ok(b), Ok(bv)) => b@ == bv,
                    (Err(e1), Err(e2)) => e1 == e2,
                    _ => false,
                }
            }),
    {
        let text = chars_of(src);
        let st = parse_raw(&text);
        if st.items.len() == 0 {
            return Err(BundleError::NoItemsFound);
        }
        let updated = match st.updated {
            Some(t) => t,
            None => clamp_ts(now_secs),
        };
        match st.collection {
            None => Ok(
                Bundle { id: 0, name: st.name, updated, collection: None, items: st.items },
            ),
            Some(cid) => match members {
                None => Ok(
                    Bundle {
                        id: 0,
                        name: st.name,
                        updated,
                        collection: Some(
                            BundleCollectionLink { id: cid, included: Vec::new(), excluded: Vec::new() },
                        ),
                        items: st.items,
                    },
                ),
                Some(ms) => {
                    let p = reconcile(st.items, ms);
                    Ok(
                        Bundle {
                            id: 0,
                            name: st.name,
                            updated,
                            collection: Some(
                                BundleCollectionLink { id: cid, included: p.1, excluded: p.2 },
                            ),
                            items: p.0,
                        },
                    )
                },
            },
        }
    }

    /// The collection id the script names, if any: what the oracle must be
    /// asked about before `import` is given its answer.
    pub fn peek_collection(src: &str) -> (r: Option<u64>)
        ensures
            r == spec_collection_of(src@),
    {
        let text = chars_of(src);
        let st = parse_raw(&text);
        st.collection
    }

    /// Writes the bundle as a loadable script. `item_names` maps item ids to
    /// display names written as comments; `collection_name` is the
    /// collection's display name, where known.
    pub fn export(&self, item_names: &Vec<(u64, String)>, collection_name: Option<&str>) -> (r:
        String)
        requires
            self@.updated_in_range(),
        ensures
            r@ == export_text(
                self@,
                names_view(item_names@),
                match collection_name {
                    Some(n) => Some(n@),
                    None => None,
                },
            ),
    {
        let ghost nv = names_view(item_names@);
        let mut out = String::new();
        out.append("-- generated by gmpublisher\n");
        out.append("-- https://gmpublisher.download\n");
        out.append("--# bundle\n");
        out.append("--# name ");
        out.append(self.name.as_str());
        out.append("\n");
        match &self.collection {
            Some(c) => {
                out.append("--# collection ");
                let ds = u64_to_string(c.id);
                out.append(ds.as_str());
                out.append("\n");
            },
            None => {
            },
        }
        out.append("--# updated ");
        let ts = format_rfc2822(self.updated);
        out.append(ts.as_str());
        out.append("\n");
        out.append("for _,w in ipairs({\n\n");
        write_items(&mut out, &self.items, item_names);
        match &self.collection {
            Some(c) => {
                out.append("\n-- Collection\n");
                match collection_name {
                    Some(n) => {
                        out.append("-- ");
                        out.append(n);
                        out.append("\n");
                    },
                    None => {
                    },
                }
                out.append("-- https://steamcommunity.com/sharedfiles/filedetails/?id=");
                let ds = u64_to_string(c.id);
                out.append(ds.as_str());
                out.append("\n");
                write_items(&mut out, &c.included, item_names);
            },
            None => {
            },
        }
        out.append("\n}) do resource.AddWorkshop(w) end");
        proof {
            assert(out@ =~= export_text(
                self@,
                nv,
                match collection_name {
                    Some(n) => Some(n@),
                    None => None,
                },
            ));
        }
        out
    }
}

} // verus!
