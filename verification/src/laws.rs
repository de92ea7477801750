//! The library's laws: what exporting, re-importing, reconciling and
//! persisting preserve, proved over the same spec functions the executable
//! functions are verified against.

use vstd::prelude::*;

use crate::bundle::{BundleView, CollectionLinkView};
use crate::codec::{
    classify, init_raw, is_ws, lemma_find_nl_unique, lemma_scan_digits_unique,
    lemma_scan_nonws_unique, lemma_skip_ws_unique, lines_of, run_lines, spec_parse, step,
    strip_cr, LineClass, RawParse,
};
use crate::numtext::{
    all_digits, dec_digits, digits_val, is_digit, lemma_dec_digits_shape, lemma_dec_digits_val,
    spec_parse_u64,
};
use crate::binfmt::{enc_bundle, enc_fits, lemma_binfmt_round_trip};
use crate::reconcile::{reconcile_spec, remove_all};
use crate::script::{export_text, item_line, items_text, name_of, spec_import};
use crate::store::{
    ids_at_most, init_fold, lemma_init_fold_wf, lemma_upsert_spec_props, upsert_spec,
};
use crate::timefmt::rfc2822_format;

verus! {

/// A single-line piece of text: nothing in it opens a new line or is dropped
/// by the reader's CRLF tolerance.
pub open spec fn line_clean(s: Seq<char>) -> bool {
    forall|i: int| 0 <= i < s.len() ==> s[i] != '\n' && s[i] != '\r'
}

/// A name the text form carries unchanged: single-line, and not opening with
/// a blank, which the directive grammar swallows.
pub open spec fn name_exportable(s: Seq<char>) -> bool {
    &&& line_clean(s)
    &&& s.len() > 0 ==> !is_ws(s[0])
}

/// Display names that are safe to write as trailing comments.
pub open spec fn names_clean(names: Seq<(u64, Seq<char>)>) -> bool {
    forall|i: int| 0 <= i < names.len() ==> line_clean(#[trigger] names[i].1)
}

/// A text without a newline is one line.
proof fn lemma_lines_single(a: Seq<char>)
    requires
        forall|i: int| 0 <= i < a.len() ==> a[i] != '\n',
    ensures
        lines_of(a) == seq![strip_cr(a)],
{
    lemma_find_nl_unique(a, a.len() as int);
}

/// Splitting after a newline-terminated first line.
proof fn lemma_lines_concat(a: Seq<char>, s: Seq<char>)
    requires
        forall|i: int| 0 <= i < a.len() ==> a[i] != '\n',
    ensures
        lines_of(a + seq!['\n'] + s) == seq![strip_cr(a)] + lines_of(s),
{
    let t = a + seq!['\n'] + s;
    assert(forall|m: int| 0 <= m < a.len() ==> t[m] == a[m]);
    assert(t[a.len() as int] == '\n');
    lemma_find_nl_unique(t, a.len() as int);
    assert(t.subrange(0, a.len() as int) =~= a);
    assert(t.subrange(a.len() as int + 1, t.len() as int) =~= s);
}

/// The text of a run of lines, each newline-terminated.
pub open spec fn term_lines(ls: Seq<Seq<char>>) -> Seq<char>
    decreases ls.len(),
{
    if ls.len() == 0 {
        Seq::empty()
    } else {
        ls[0] + seq!['\n'] + term_lines(ls.drop_first())
    }
}

proof fn lemma_term_lines_add(a: Seq<Seq<char>>, b: Seq<Seq<char>>)
    ensures
        term_lines(a + b) == term_lines(a) + term_lines(b),
    decreases a.len(),
{
    if a.len() == 0 {
        assert(a + b =~= b);
        assert(Seq::<char>::empty() + term_lines(b) =~= term_lines(b));
    } else {
        assert((a + b).drop_first() =~= a.drop_first() + b);
        lemma_term_lines_add(a.drop_first(), b);
        assert((a + b)[0] == a[0]);
        assert(a[0] + seq!['\n'] + (term_lines(a.drop_first()) + term_lines(b)) =~= (a[0]
            + seq!['\n'] + term_lines(a.drop_first())) + term_lines(b));
    }
}

proof fn lemma_term_one(a: Seq<char>)
    ensures
        term_lines(seq![a]) == a + seq!['\n'],
{
    assert(seq![a].drop_first() =~= Seq::<Seq<char>>::empty());
    assert(seq![a][0] == a);
    assert(term_lines(Seq::<Seq<char>>::empty()) == Seq::<char>::empty());
    assert(term_lines(seq![a]) == a + seq!['\n'] + Seq::<char>::empty());
    assert(a + seq!['\n'] + Seq::<char>::empty() =~= a + seq!['\n']);
}

/// Splitting the text of newline-terminated lines plus an unterminated last
/// line recovers exactly those lines.
proof fn lemma_lines_of_term(ls: Seq<Seq<char>>, last: Seq<char>)
    requires
        forall|i: int| 0 <= i < ls.len() ==> line_clean(#[trigger] ls[i]),
        line_clean(last),
    ensures
        lines_of(term_lines(ls) + last) == ls + seq![last],
    decreases ls.len(),
{
    if ls.len() == 0 {
        assert(term_lines(ls) + last =~= last);
        lemma_lines_single(last);
        assert(strip_cr(last) == last);
        assert(seq![last] =~= ls + seq![last]);
    } else {
        let rest = term_lines(ls.drop_first()) + last;
        assert(term_lines(ls) + last =~= ls[0] + seq!['\n'] + rest);
        assert(line_clean(ls[0]));
        lemma_lines_concat(ls[0], rest);
        assert(forall|i: int| 0 <= i < ls.drop_first().len() ==> ls.drop_first()[i] == ls[i + 1]);
        lemma_lines_of_term(ls.drop_first(), last);
        assert(strip_cr(ls[0]) == ls[0]);
        assert(seq![ls[0]] + (ls.drop_first() + seq![last]) =~= ls + seq![last]);
    }
}

/// The items' lines, unterminated.
pub open spec fn item_lines(ids: Seq<u64>, names: Seq<(u64, Seq<char>)>) -> Seq<Seq<char>> {
    ids.map(|i: int, id: u64| item_line(id, names))
}

proof fn lemma_items_text_term(ids: Seq<u64>, names: Seq<(u64, Seq<char>)>)
    ensures
        items_text(ids, names) == term_lines(item_lines(ids, names)),
    decreases ids.len(),
{
    if ids.len() == 0 {
        assert(item_lines(ids, names) =~= Seq::<Seq<char>>::empty());
    } else {
        lemma_items_text_term(ids.drop_first(), names);
        assert(item_lines(ids, names).drop_first() =~= item_lines(ids.drop_first(), names));
        assert(item_lines(ids, names)[0] == item_line(ids[0], names));
    }
}

/// The closing scaffold line.
pub open spec fn closer_line() -> Seq<char> {
    "}) do resource.AddWorkshop(w) end"@
}

/// The export's lines before the closing line, in order.
pub open spec fn export_lines_front(
    b: BundleView,
    names: Seq<(u64, Seq<char>)>,
    cname: Option<Seq<char>>,
) -> Seq<Seq<char>> {
    seq![
        "-- generated by gmpublisher"@,
        "-- https://gmpublisher.download"@,
        "--# bundle"@,
        "--# name "@ + b.name,
    ] + (match b.collection {
        Some(c) => seq!["--# collection "@ + dec_digits(c.id as nat)],
        None => Seq::empty(),
    }) + seq![
        "--# updated "@ + rfc2822_format(b.updated),
        "for _,w in ipairs({"@,
        Seq::<char>::empty(),
    ] + item_lines(b.items, names) + (match b.collection {
        Some(c) => seq![Seq::<char>::empty(), "-- Collection"@] + (match cname {
            Some(n) => seq!["-- "@ + n],
            None => Seq::empty(),
        }) + seq![
            "-- https://steamcommunity.com/sharedfiles/filedetails/?id="@ + dec_digits(
                c.id as nat,
            ),
        ] + item_lines(c.included, names),
        None => Seq::empty(),
    }) + seq![Seq::<char>::empty()]
}

/// The exported text is exactly its lines, newline-terminated, plus the
/// closing line.
#[verifier::rlimit(100)]
#[verifier::spinoff_prover]
proof fn lemma_export_text_lines(
    b: BundleView,
    names: Seq<(u64, Seq<char>)>,
    cname: Option<Seq<char>>,
)
    ensures
        export_text(b, names, cname) == term_lines(export_lines_front(b, names, cname))
            + closer_line(),
{
    reveal_strlit("-- generated by gmpublisher\n");
    reveal_strlit("-- generated by gmpublisher");
    reveal_strlit("-- https://gmpublisher.download\n");
    reveal_strlit("-- https://gmpublisher.download");
    reveal_strlit("--# bundle\n");
    reveal_strlit("--# bundle");
    reveal_strlit("\n");
    reveal_strlit("for _,w in ipairs({\n\n");
    reveal_strlit("for _,w in ipairs({");
    reveal_strlit("\n-- Collection\n");
    reveal_strlit("-- Collection");
    reveal_strlit("\n}) do resource.AddWorkshop(w) end");
    reveal_strlit("}) do resource.AddWorkshop(w) end");
    let g = "-- generated by gmpublisher"@;
    let u = "-- https://gmpublisher.download"@;
    let bd = "--# bundle"@;
    let nm = "--# name "@ + b.name;
    let upd = "--# updated "@ + rfc2822_format(b.updated);
    let fl = "for _,w in ipairs({"@;
    let emp = Seq::<char>::empty();
    let head = seq![g, u, bd, nm];
    let cd = match b.collection {
        Some(c) => seq!["--# collection "@ + dec_digits(c.id as nat)],
        None => Seq::<Seq<char>>::empty(),
    };
    let mid = seq![upd, fl, emp];
    let it = item_lines(b.items, names);
    let cb = match b.collection {
        Some(c) => seq![emp, "-- Collection"@] + (match cname {
            Some(n) => seq!["-- "@ + n],
            None => Seq::<Seq<char>>::empty(),
        }) + seq![
            "-- https://steamcommunity.com/sharedfiles/filedetails/?id="@ + dec_digits(
                c.id as nat,
            ),
        ] + item_lines(c.included, names),
        None => Seq::<Seq<char>>::empty(),
    };
    let tail = seq![emp];
    let front = export_lines_front(b, names, cname);
    assert(front == head + cd + mid + it + cb + tail);
    lemma_term_lines_add(head + cd + mid + it + cb, tail);
    lemma_term_lines_add(head + cd + mid + it, cb);
    lemma_term_lines_add(head + cd + mid, it);
    lemma_term_lines_add(head + cd, mid);
    lemma_term_lines_add(head, cd);
    // each small block, line by line
    assert(head =~= seq![g] + seq![u] + seq![bd] + seq![nm]);
    lemma_term_lines_add(seq![g] + seq![u] + seq![bd], seq![nm]);
    lemma_term_lines_add(seq![g] + seq![u], seq![bd]);
    lemma_term_lines_add(seq![g], seq![u]);
    lemma_term_one(g);
    lemma_term_one(u);
    lemma_term_one(bd);
    lemma_term_one(nm);
    assert(mid =~= seq![upd] + seq![fl] + seq![emp]);
    lemma_term_lines_add(seq![upd] + seq![fl], seq![emp]);
    lemma_term_lines_add(seq![upd], seq![fl]);
    lemma_term_one(upd);
    lemma_term_one(fl);
    lemma_term_one(emp);
    lemma_items_text_term(b.items, names);
    // literal bridges
    assert("-- generated by gmpublisher\n"@ =~= g + seq!['\n']);
    assert("-- https://gmpublisher.download\n"@ =~= u + seq!['\n']);
    assert("--# bundle\n"@ =~= bd + seq!['\n']);
    assert("\n"@ =~= seq!['\n']);
    assert("for _,w in ipairs({\n\n"@ =~= fl + seq!['\n'] + (emp + seq!['\n']));
    assert("\n}) do resource.AddWorkshop(w) end"@ =~= emp + seq!['\n'] + closer_line());
    match b.collection {
        None => {
            assert(term_lines(head) =~= "-- generated by gmpublisher\n"@
                + "-- https://gmpublisher.download\n"@ + "--# bundle\n"@ + ("--# name "@ + b.name
                + "\n"@));
            assert(term_lines(cd) == Seq::<char>::empty());
            assert(term_lines(cb) == Seq::<char>::empty());
            assert(export_text(b, names, cname) =~= term_lines(front) + closer_line());
        },
        Some(c) => {
            let cdl = "--# collection "@ + dec_digits(c.id as nat);
            lemma_term_one(cdl);
            assert(cd == seq![cdl]);
            let url = "-- https://steamcommunity.com/sharedfiles/filedetails/?id="@ + dec_digits(
                c.id as nat,
            );
            let cnl = match cname {
                Some(n) => seq!["-- "@ + n],
                None => Seq::<Seq<char>>::empty(),
            };
            assert(cb =~= seq![emp] + seq!["-- Collection"@] + cnl + seq![url] + item_lines(
                c.included,
                names,
            ));
            lemma_term_lines_add(seq![emp] + seq!["-- Collection"@] + cnl + seq![url], item_lines(
                c.included,
                names,
            ));
            lemma_term_lines_add(seq![emp] + seq!["-- Collection"@] + cnl, seq![url]);
            lemma_term_lines_add(seq![emp] + seq!["-- Collection"@], cnl);
            lemma_term_lines_add(seq![emp], seq!["-- Collection"@]);
            lemma_term_one(emp);
            lemma_term_one("-- Collection"@);
            lemma_term_one(url);
            lemma_items_text_term(c.included, names);
            assert("\n-- Collection\n"@ =~= (emp + seq!['\n']) + ("-- Collection"@ + seq!['\n']));
            match cname {
                Some(n) => {
                    lemma_term_one("-- "@ + n);
                    assert(term_lines(cnl) == "-- "@ + n + seq!['\n']);
                },
                None => {
                    assert(term_lines(cnl) == Seq::<char>::empty());
                },
            }
            assert(export_text(b, names, cname) =~= term_lines(front) + closer_line());
        },
    }
}

proof fn lemma_classify_comment(l: Seq<char>)
    requires
        l.len() >= 3,
        l[0] == '-',
        l[1] == '-',
        l[2] == ' ',
    ensures
        classify(l) is SkipTok,
{
    lemma_skip_ws_unique(l, 0, 0);
}

proof fn lemma_classify_plain(l: Seq<char>)
    requires
        l.len() > 0 ==> !is_ws(l[0]) && l[0] != '"' && l[0] != '\'' && l[0] != '[' && l[0] != '-',
    ensures
        classify(l) is SkipTok,
{
    if l.len() > 0 {
        lemma_skip_ws_unique(l, 0, 0);
    }
}

proof fn lemma_classify_bundle_line()
    ensures
        classify("--# bundle"@) == (LineClass::DirectiveTok { key: "bundle"@, value: None }),
{
    reveal_strlit("--# bundle");
    reveal_strlit("bundle");
    let l = "--# bundle"@;
    lemma_skip_ws_unique(l, 0, 0);
    lemma_skip_ws_unique(l, 3, 4);
    lemma_scan_nonws_unique(l, 4, 10);
    lemma_skip_ws_unique(l, 10, 10);
    assert(l.subrange(4, 10) =~= "bundle"@);
}

proof fn lemma_classify_name_line(name: Seq<char>)
    requires
        name_exportable(name),
    ensures
        classify("--# name "@ + name) == (LineClass::DirectiveTok {
            key: "name"@,
            value: if name.len() == 0 {
                None
            } else {
                Some(name)
            },
        }),
{
    reveal_strlit("--# name ");
    reveal_strlit("name");
    let l = "--# name "@ + name;
    lemma_skip_ws_unique(l, 0, 0);
    lemma_skip_ws_unique(l, 3, 4);
    lemma_scan_nonws_unique(l, 4, 8);
    assert(l.subrange(4, 8) =~= "name"@);
    if name.len() == 0 {
        lemma_skip_ws_unique(l, 8, 9);
    } else {
        assert(l[9] == name[0]);
        lemma_skip_ws_unique(l, 8, 9);
        assert(l.subrange(9, l.len() as int) =~= name);
    }
}

/// Decimal digits are ordinary text: not blanks, quotes, newlines, brackets.
proof fn lemma_digits_plain(s: Seq<char>)
    requires
        all_digits(s),
    ensures
        line_clean(s),
        forall|i: int|
            0 <= i < s.len() ==> !is_ws(s[i]) && s[i] != '"' && s[i] != '\n' && s[i] != '\r'
                && s[i] != '+',
{
    assert forall|i: int| 0 <= i < s.len() implies !is_ws(s[i]) && s[i] != '"' && s[i] != '\n'
        && s[i] != '\r' && s[i] != '+' by {
        assert(is_digit(s[i]));
    }
}

proof fn lemma_parse_dec(id: u64)
    ensures
        spec_parse_u64(dec_digits(id as nat)) == Some(id),
{
    lemma_dec_digits_shape(id as nat);
    lemma_dec_digits_val(id as nat);
    let d = dec_digits(id as nat);
    assert(is_digit(d[0]));
    assert(d[0] != '+');
}

proof fn lemma_classify_collection_line(cid: u64)
    ensures
        classify("--# collection "@ + dec_digits(cid as nat)) == (LineClass::DirectiveTok {
            key: "collection"@,
            value: Some(dec_digits(cid as nat)),
        }),
{
    reveal_strlit("--# collection ");
    reveal_strlit("collection");
    let d = dec_digits(cid as nat);
    lemma_dec_digits_shape(cid as nat);
    lemma_digits_plain(d);
    let l = "--# collection "@ + d;
    lemma_skip_ws_unique(l, 0, 0);
    lemma_skip_ws_unique(l, 3, 4);
    lemma_scan_nonws_unique(l, 4, 14);
    assert(l.subrange(4, 14) =~= "collection"@);
    assert(l[15] == d[0]);
    lemma_skip_ws_unique(l, 14, 15);
    assert(l.subrange(15, l.len() as int) =~= d);
}

proof fn lemma_classify_updated_line(r: Seq<char>)
    ensures
        classify("--# updated "@ + r) matches LineClass::DirectiveTok { key, value } && key
            == "updated"@,
{
    reveal_strlit("--# updated ");
    reveal_strlit("updated");
    let l = "--# updated "@ + r;
    lemma_skip_ws_unique(l, 0, 0);
    lemma_skip_ws_unique(l, 3, 4);
    lemma_scan_nonws_unique(l, 4, 11);
    assert(l.subrange(4, 11) =~= "updated"@);
}

proof fn lemma_classify_item_line(id: u64, names: Seq<(u64, Seq<char>)>)
    ensures
        classify(item_line(id, names)) == (LineClass::ItemTok { val: id as nat }),
{
    reveal_strlit("\"");
    reveal_strlit("\" -- ");
    let d = dec_digits(id as nat);
    lemma_dec_digits_shape(id as nat);
    lemma_dec_digits_val(id as nat);
    lemma_digits_plain(d);
    let l = item_line(id, names);
    let dl = d.len() as int;
    assert(l[0] == '"');
    assert(forall|p: int| 0 <= p < dl ==> l[1 + p] == d[p]);
    assert(l[1 + dl] == '"');
    lemma_skip_ws_unique(l, 0, 0);
    assert(!is_ws(l[1]));
    lemma_skip_ws_unique(l, 1, 1);
    assert(!is_digit(l[1 + dl]));
    lemma_scan_digits_unique(l, 1, 1 + dl);
    lemma_skip_ws_unique(l, 1 + dl, 1 + dl);
    assert(l.subrange(1, 1 + dl) =~= d);
}

proof fn lemma_run_add(st: RawParse, a: Seq<Seq<char>>, b: Seq<Seq<char>>)
    ensures
        run_lines(st, a + b) == run_lines(run_lines(st, a), b),
    decreases a.len(),
{
    if a.len() == 0 {
        assert(a + b =~= b);
    } else {
        assert((a + b)[0] == a[0]);
        assert((a + b).drop_first() =~= a.drop_first() + b);
        lemma_run_add(step(st, a[0]), a.drop_first(), b);
    }
}

proof fn lemma_run_one(st: RawParse, l: Seq<char>)
    ensures
        run_lines(st, seq![l]) == step(st, l),
{
    assert(seq![l].drop_first() =~= Seq::<Seq<char>>::empty());
    assert(seq![l][0] == l);
    assert(run_lines(step(st, l), Seq::<Seq<char>>::empty()) == step(st, l));
}

/// Item lines append their values, in order, to a started parse.
proof fn lemma_run_items(st: RawParse, ids: Seq<u64>, names: Seq<(u64, Seq<char>)>)
    requires
        st.started,
        !st.halted,
    ensures
        run_lines(st, item_lines(ids, names)) == (RawParse { items: st.items + ids, ..st }),
    decreases ids.len(),
{
    if ids.len() == 0 {
        assert(item_lines(ids, names) =~= Seq::<Seq<char>>::empty());
        assert(st.items + ids =~= st.items);
        assert(RawParse { items: st.items + ids, ..st } == st);
    } else {
        lemma_classify_item_line(ids[0], names);
        let st1 = step(st, item_line(ids[0], names));
        assert(st1 == RawParse { items: st.items.push(ids[0]), ..st });
        assert(item_lines(ids, names)[0] == item_line(ids[0], names));
        assert(item_lines(ids, names).drop_first() =~= item_lines(ids.drop_first(), names));
        lemma_run_items(st1, ids.drop_first(), names);
        assert(st.items.push(ids[0]) + ids.drop_first() =~= st.items + ids);
    }
}

proof fn lemma_name_of_clean(names: Seq<(u64, Seq<char>)>, id: u64)
    requires
        names_clean(names),
    ensures
        match name_of(names, id) {
            Some(v) => line_clean(v),
            None => true,
        },
    decreases names.len(),
{
    if names.len() > 0 {
        if names[0].0 == id {
            assert(line_clean(names[0].1));
        } else {
            assert(forall|i: int|
                0 <= i < names.drop_first().len() ==> names.drop_first()[i] == names[i + 1]);
            lemma_name_of_clean(names.drop_first(), id);
        }
    }
}

proof fn lemma_item_line_clean(id: u64, names: Seq<(u64, Seq<char>)>)
    requires
        names_clean(names),
    ensures
        line_clean(item_line(id, names)),
{
    reveal_strlit("\"");
    reveal_strlit("\" -- ");
    lemma_dec_digits_shape(id as nat);
    lemma_digits_plain(dec_digits(id as nat));
    lemma_name_of_clean(names, id);
}

/// Parsing an exported script recovers the bundle: the same name, the same
/// collection id, and the raw item list is exactly the bundle's items
/// followed by the collection's included items.
#[verifier::rlimit(100)]
#[verifier::spinoff_prover]
pub proof fn lemma_export_parse_round_trip(
    b: BundleView,
    names: Seq<(u64, Seq<char>)>,
    cname: Option<Seq<char>>,
)
    requires
        name_exportable(b.name),
        names_clean(names),
        match cname {
            Some(n) => line_clean(n),
            None => true,
        },
        line_clean(rfc2822_format(b.updated)),
    ensures
        ({
            let raw = spec_parse(export_text(b, names, cname));
            &&& raw.name == b.name
            &&& raw.collection == (match b.collection {
                Some(c) => Some(c.id),
                None => None::<u64>,
            })
            &&& raw.items == b.items + (match b.collection {
                Some(c) => c.included,
                None => Seq::<u64>::empty(),
            })
            &&& raw.started
            &&& !raw.halted
        }),
{
    reveal_strlit("-- generated by gmpublisher");
    reveal_strlit("-- https://gmpublisher.download");
    reveal_strlit("--# bundle");
    reveal_strlit("--# name ");
    reveal_strlit("--# collection ");
    reveal_strlit("--# updated ");
    reveal_strlit("for _,w in ipairs({");
    reveal_strlit("-- Collection");
    reveal_strlit("-- ");
    reveal_strlit("-- https://steamcommunity.com/sharedfiles/filedetails/?id=");
    reveal_strlit("}) do resource.AddWorkshop(w) end");
    reveal_strlit("bundle");
    reveal_strlit("name");
    reveal_strlit("collection");
    reveal_strlit("updated");
    let g = "-- generated by gmpublisher"@;
    let u = "-- https://gmpublisher.download"@;
    let bd = "--# bundle"@;
    let nm = "--# name "@ + b.name;
    let upd = "--# updated "@ + rfc2822_format(b.updated);
    let fl = "for _,w in ipairs({"@;
    let emp = Seq::<char>::empty();
    let head = seq![g, u, bd, nm];
    let cd = match b.collection {
        Some(c) => seq!["--# collection "@ + dec_digits(c.id as nat)],
        None => Seq::<Seq<char>>::empty(),
    };
    let mid = seq![upd, fl, emp];
    let it = item_lines(b.items, names);
    let cb = match b.collection {
        Some(c) => seq![emp, "-- Collection"@] + (match cname {
            Some(n) => seq!["-- "@ + n],
            None => Seq::<Seq<char>>::empty(),
        }) + seq![
            "-- https://steamcommunity.com/sharedfiles/filedetails/?id="@ + dec_digits(
                c.id as nat,
            ),
        ] + item_lines(c.included, names),
        None => Seq::<Seq<char>>::empty(),
    };
    let tail = seq![emp];
    let front = export_lines_front(b, names, cname);
    lemma_export_text_lines(b, names, cname);
    // every line is single-line text
    assert forall|i: int| 0 <= i < it.len() implies line_clean(#[trigger] it[i]) by {
        lemma_item_line_clean(b.items[i], names);
    }
    match b.collection {
        Some(c) => {
            lemma_dec_digits_shape(c.id as nat);
            lemma_digits_plain(dec_digits(c.id as nat));
            let incl = item_lines(c.included, names);
            assert forall|i: int| 0 <= i < incl.len() implies line_clean(#[trigger] incl[i]) by {
                lemma_item_line_clean(c.included[i], names);
            }
            assert(forall|i: int| 0 <= i < cb.len() ==> line_clean(#[trigger] cb[i]));
        },
        None => {
        },
    }
    assert(forall|i: int| 0 <= i < front.len() ==> line_clean(#[trigger] front[i]));
    assert(line_clean(closer_line()));
    lemma_lines_of_term(front, closer_line());
    let all = front + seq![closer_line()];
    assert(lines_of(export_text(b, names, cname)) == all);
    // run the state machine block by block
    let st0 = init_raw();
    lemma_run_add(st0, front, seq![closer_line()]);
    lemma_run_add(st0, head + cd + mid + it + cb, tail);
    lemma_run_add(st0, head + cd + mid + it, cb);
    lemma_run_add(st0, head + cd + mid, it);
    lemma_run_add(st0, head + cd, mid);
    lemma_run_add(st0, head, cd);
    assert(front == head + cd + mid + it + cb + tail);
    // head: two comments, the bundle directive, the name directive
    assert(head =~= seq![g] + seq![u] + seq![bd] + seq![nm]);
    lemma_run_add(st0, seq![g] + seq![u] + seq![bd], seq![nm]);
    lemma_run_add(st0, seq![g] + seq![u], seq![bd]);
    lemma_run_add(st0, seq![g], seq![u]);
    lemma_run_one(st0, g);
    lemma_classify_comment(g);
    let st1 = step(st0, g);
    assert(st1 == st0);
    lemma_run_one(st1, u);
    lemma_classify_comment(u);
    let st2 = step(st1, u);
    assert(st2 == st1);
    lemma_run_one(st2, bd);
    lemma_classify_bundle_line();
    let st3 = step(st2, bd);
    assert(st3 == RawParse { started: true, ..st0 });
    assert(("bundle"@).len() == 6 && ("name"@).len() == 4 && ("collection"@).len() == 10 && (
    "updated"@).len() == 7);
    assert("name"@ != "bundle"@);
    assert("collection"@ != "bundle"@ && "collection"@ != "name"@);
    assert("updated"@ != "bundle"@ && "updated"@ != "name"@ && "updated"@ != "collection"@);
    lemma_run_one(st3, nm);
    lemma_classify_name_line(b.name);
    let st4 = step(st3, nm);
    if b.name.len() == 0 {
        assert(st4 == st3);
        assert(st4.name =~= b.name);
    }
    assert(st4.name == b.name);
    assert(st4 == RawParse { name: b.name, started: true, ..st0 });
    assert(run_lines(st0, head) == st4);
    // the collection directive, where present
    let st5 = run_lines(st4, cd);
    match b.collection {
        Some(c) => {
            lemma_run_one(st4, "--# collection "@ + dec_digits(c.id as nat));
            lemma_classify_collection_line(c.id);
            lemma_parse_dec(c.id);
            assert(st5 == RawParse { collection: Some(c.id), ..st4 });
        },
        None => {
            assert(st5 == st4);
        },
    }
    // updated directive, scaffold line, blank line
    assert(mid =~= seq![upd] + seq![fl] + seq![emp]);
    lemma_run_add(st5, seq![upd] + seq![fl], seq![emp]);
    lemma_run_add(st5, seq![upd], seq![fl]);
    lemma_run_one(st5, upd);
    lemma_classify_updated_line(rfc2822_format(b.updated));
    let st6 = step(st5, upd);
    assert(st6.name == st5.name && st6.collection == st5.collection && st6.items == st5.items
        && st6.started && !st6.halted);
    lemma_run_one(st6, fl);
    lemma_classify_plain(fl);
    let st7 = step(st6, fl);
    assert(st7 == st6);
    lemma_run_one(st7, emp);
    lemma_classify_plain(emp);
    let st8 = step(st7, emp);
    assert(st8 == st7);
    assert(run_lines(st5, mid) == st8);
    // the items
    lemma_run_items(st8, b.items, names);
    let st9 = run_lines(st8, it);
    assert(st9 == RawParse { items: st8.items + b.items, ..st8 });
    assert(st8.items =~= Seq::<u64>::empty());
    assert(st8.items + b.items =~= b.items);
    // the collection trailer, where present
    let st10 = run_lines(st9, cb);
    match b.collection {
        Some(c) => {
            let cnl = match cname {
                Some(n) => seq!["-- "@ + n],
                None => Seq::<Seq<char>>::empty(),
            };
            let url = "-- https://steamcommunity.com/sharedfiles/filedetails/?id="@ + dec_digits(
                c.id as nat,
            );
            let incl = item_lines(c.included, names);
            assert(cb =~= seq![emp] + seq!["-- Collection"@] + cnl + seq![url] + incl);
            lemma_run_add(st9, seq![emp] + seq!["-- Collection"@] + cnl + seq![url], incl);
            lemma_run_add(st9, seq![emp] + seq!["-- Collection"@] + cnl, seq![url]);
            lemma_run_add(st9, seq![emp] + seq!["-- Collection"@], cnl);
            lemma_run_add(st9, seq![emp], seq!["-- Collection"@]);
            lemma_run_one(st9, emp);
            lemma_classify_plain(emp);
            let sta = step(st9, emp);
            assert(sta == st9);
            lemma_run_one(sta, "-- Collection"@);
            lemma_classify_comment("-- Collection"@);
            let stb = step(sta, "-- Collection"@);
            assert(stb == sta);
            let stc = run_lines(stb, cnl);
            match cname {
                Some(n) => {
                    lemma_run_one(stb, "-- "@ + n);
                    lemma_classify_comment("-- "@ + n);
                    assert(stc == stb);
                },
                None => {
                    assert(stc == stb);
                },
            }
            lemma_run_one(stc, url);
            lemma_classify_comment(url);
            let std_ = step(stc, url);
            assert(std_ == stc);
            lemma_run_items(std_, c.included, names);
            assert(st10 == RawParse { items: std_.items + c.included, ..std_ });
        },
        None => {
            assert(st10 == st9);
        },
    }
    // the final blank line and the closing scaffold line
    lemma_run_one(st10, emp);
    lemma_classify_plain(emp);
    let st11 = run_lines(st10, tail);
    assert(st11 == st10);
    lemma_run_one(st11, closer_line());
    lemma_classify_plain(closer_line());
    let st12 = step(st11, closer_line());
    assert(st12 == st11);
    assert(spec_parse(export_text(b, names, cname)) == st12);
}

/// No value appears twice: what holds of a real collection's membership.
pub open spec fn nodup(s: Seq<u64>) -> bool {
    forall|i: int, j: int| 0 <= i < j < s.len() ==> s[i] != s[j]
}

proof fn lemma_cons_contains(m: u64, s: Seq<u64>, x: u64)
    ensures
        (seq![m] + s).contains(x) <==> (x == m || s.contains(x)),
{
    if (seq![m] + s).contains(x) {
        let k = choose|k: int| 0 <= k < (seq![m] + s).len() && (seq![m] + s)[k] == x;
        if k > 0 {
            assert(s[k - 1] == x);
        }
    }
    if s.contains(x) {
        let k = choose|k: int| 0 <= k < s.len() && s[k] == x;
        assert((seq![m] + s)[k + 1] == x);
    }
    assert((seq![m] + s)[0] == m);
}

proof fn lemma_concat_contains(a: Seq<u64>, b: Seq<u64>, x: u64)
    ensures
        (a + b).contains(x) <==> (a.contains(x) || b.contains(x)),
{
    if (a + b).contains(x) {
        let k = choose|k: int| 0 <= k < (a + b).len() && (a + b)[k] == x;
        if k >= a.len() {
            assert(b[k - a.len()] == x);
        }
    }
    if a.contains(x) {
        let k = choose|k: int| 0 <= k < a.len() && a[k] == x;
        assert((a + b)[k] == x);
    }
    if b.contains(x) {
        let k = choose|k: int| 0 <= k < b.len() && b[k] == x;
        assert((a + b)[k + a.len()] == x);
    }
}

proof fn lemma_remove_all_props(s: Seq<u64>, x: u64)
    ensures
        !remove_all(s, x).contains(x),
        forall|y: u64| #[trigger] remove_all(s, x).contains(y) ==> s.contains(y),
        forall|y: u64| y != x && s.contains(y) ==> #[trigger] remove_all(s, x).contains(y),
    decreases s.len(),
{
    if s.len() > 0 {
        let t = s.drop_first();
        lemma_remove_all_props(t, x);
        assert(forall|i: int| 0 <= i < t.len() ==> t[i] == s[i + 1]);
        assert forall|y: u64| y != x && s.contains(y) implies #[trigger] remove_all(s, x).contains(
            y,
        ) by {
            let k = choose|k: int| 0 <= k < s.len() && s[k] == y;
            if k > 0 {
                assert(t[k - 1] == y);
            }
            if s[0] == x {
                assert(t.contains(y)) by {
                    if k == 0 {
                        assert(s[0] == y && y == x);
                    }
                }
            } else {
                if k == 0 {
                    assert((seq![s[0]] + remove_all(t, x))[0] == y);
                } else {
                    lemma_cons_contains(s[0], remove_all(t, x), y);
                }
            }
        }
        if s[0] != x {
            lemma_cons_contains(s[0], remove_all(t, x), x);
            assert forall|y: u64| #[trigger] remove_all(s, x).contains(y) implies s.contains(
                y,
            ) by {
                lemma_cons_contains(s[0], remove_all(t, x), y);
                if y != s[0] {
                    assert(t.contains(y));
                    let k = choose|k: int| 0 <= k < t.len() && t[k] == y;
                    assert(s[k + 1] == y);
                }
            }
        } else {
            assert forall|y: u64| #[trigger] remove_all(s, x).contains(y) implies s.contains(
                y,
            ) by {
                assert(t.contains(y));
                let k = choose|k: int| 0 <= k < t.len() && t[k] == y;
                assert(s[k + 1] == y);
            }
        }
    }
}

proof fn lemma_remove_all_id(s: Seq<u64>, x: u64)
    requires
        !s.contains(x),
    ensures
        remove_all(s, x) == s,
    decreases s.len(),
{
    if s.len() > 0 {
        let t = s.drop_first();
        assert(forall|i: int| 0 <= i < t.len() ==> t[i] == s[i + 1]);
        assert(!t.contains(x)) by {
            if t.contains(x) {
                let k = choose|k: int| 0 <= k < t.len() && t[k] == x;
                assert(s[k + 1] == x);
            }
        }
        assert(s[0] != x);
        lemma_remove_all_id(t, x);
        assert(seq![s[0]] + t =~= s);
    }
}

proof fn lemma_remove_all_concat(a: Seq<u64>, b: Seq<u64>, x: u64)
    ensures
        remove_all(a + b, x) == remove_all(a, x) + remove_all(b, x),
    decreases a.len(),
{
    if a.len() == 0 {
        assert(a + b =~= b);
        assert(remove_all(a, x) + remove_all(b, x) =~= remove_all(b, x));
    } else {
        assert((a + b).drop_first() =~= a.drop_first() + b);
        assert((a + b)[0] == a[0]);
        lemma_remove_all_concat(a.drop_first(), b, x);
        if a[0] != x {
            assert(seq![a[0]] + (remove_all(a.drop_first(), x) + remove_all(b, x)) =~= (seq![a[0]]
                + remove_all(a.drop_first(), x)) + remove_all(b, x));
        }
    }
}

/// The reconciler's partition: survivors come from the items, included
/// members come from both sides and never stay among the survivors, excluded
/// members were never items at all. In particular the three lists are
/// pairwise disjoint.
pub proof fn lemma_reconcile_parts(items: Seq<u64>, ms: Seq<u64>)
    requires
        nodup(ms),
    ensures
        ({
            let p = reconcile_spec(items, ms);
            &&& forall|x: u64| #[trigger] p.0.contains(x) ==> items.contains(x)
            &&& forall|x: u64| #[trigger]
                p.1.contains(x) ==> items.contains(x) && ms.contains(x) && !p.0.contains(x)
            &&& forall|x: u64| #[trigger] p.2.contains(x) ==> ms.contains(x) && !items.contains(x)
            &&& forall|x: u64| #[trigger] ms.contains(x) ==> p.1.contains(x) || p.2.contains(x)
        }),
    decreases ms.len(),
{
    let p = reconcile_spec(items, ms);
    if ms.len() > 0 {
        let m = ms[0];
        let rest = ms.drop_first();
        assert(forall|i: int| 0 <= i < rest.len() ==> rest[i] == ms[i + 1]);
        assert forall|x: u64| rest.contains(x) implies ms.contains(x) by {
            let k = choose|k: int| 0 <= k < rest.len() && rest[k] == x;
            assert(ms[k + 1] == x);
        }
        assert(ms.contains(m)) by {
            assert(ms[0] == m);
        }
        assert(!rest.contains(m)) by {
            if rest.contains(m) {
                let k = choose|k: int| 0 <= k < rest.len() && rest[k] == m;
                assert(ms[k + 1] == m && ms[0] == m);
            }
        }
        if items.contains(m) {
            let items2 = remove_all(items, m);
            lemma_remove_all_props(items, m);
            lemma_reconcile_parts(items2, rest);
            let q = reconcile_spec(items2, rest);
            assert(p == (q.0, seq![m] + q.1, q.2));
            assert forall|x: u64| #[trigger] p.1.contains(x) implies items.contains(x)
                && ms.contains(x) && !p.0.contains(x) by {
                lemma_cons_contains(m, q.1, x);
                if x == m {
                    assert(!q.0.contains(m));
                } else {
                    assert(q.1.contains(x));
                }
            }
            assert forall|x: u64| #[trigger] p.2.contains(x) implies ms.contains(x)
                && !items.contains(x) by {
                assert(q.2.contains(x));
                assert(rest.contains(x));
                assert(x != m);
                assert(!items2.contains(x));
            }
            assert forall|x: u64| #[trigger] ms.contains(x) implies p.1.contains(x)
                || p.2.contains(x) by {
                lemma_cons_contains(m, q.1, x);
                if x != m {
                    let k = choose|k: int| 0 <= k < ms.len() && ms[k] == x;
                    assert(rest[k - 1] == x);
                    assert(rest.contains(x));
                }
            }
        } else {
            lemma_reconcile_parts(items, rest);
            let q = reconcile_spec(items, rest);
            assert(p == (q.0, q.1, seq![m] + q.2));
            assert forall|x: u64| #[trigger] p.2.contains(x) implies ms.contains(x)
                && !items.contains(x) by {
                lemma_cons_contains(m, q.2, x);
            }
            assert forall|x: u64| #[trigger] ms.contains(x) implies p.1.contains(x)
                || p.2.contains(x) by {
                lemma_cons_contains(m, q.2, x);
                if x != m {
                    let k = choose|k: int| 0 <= k < ms.len() && ms[k] == x;
                    assert(rest[k - 1] == x);
                    assert(rest.contains(x));
                }
            }
        }
    }
}

/// Reconciling what reconciliation produced changes nothing: the merge is
/// idempotent under one oracle answer.
pub proof fn lemma_reconcile_idempotent(items: Seq<u64>, ms: Seq<u64>)
    requires
        nodup(ms),
    ensures
        ({
            let p = reconcile_spec(items, ms);
            reconcile_spec(p.0 + p.1, ms) == p
        }),
    decreases ms.len(),
{
    let p = reconcile_spec(items, ms);
    if ms.len() == 0 {
        assert(p.0 + p.1 =~= items);
    } else {
        let m = ms[0];
        let rest = ms.drop_first();
        assert(forall|i: int| 0 <= i < rest.len() ==> rest[i] == ms[i + 1]);
        assert(!rest.contains(m)) by {
            if rest.contains(m) {
                let k = choose|k: int| 0 <= k < rest.len() && rest[k] == m;
                assert(ms[k + 1] == m && ms[0] == m);
            }
        }
        if items.contains(m) {
            let items2 = remove_all(items, m);
            lemma_remove_all_props(items, m);
            lemma_reconcile_parts(items2, rest);
            let q = reconcile_spec(items2, rest);
            assert(p == (q.0, seq![m] + q.1, q.2));
            assert((q.0 + (seq![m] + q.1)).contains(m)) by {
                assert((q.0 + (seq![m] + q.1))[q.0.len() as int] == m);
            }
            assert(!q.0.contains(m));
            assert(!q.1.contains(m));
            lemma_remove_all_concat(q.0, seq![m] + q.1, m);
            lemma_remove_all_id(q.0, m);
            assert(remove_all(seq![m] + q.1, m) == remove_all(q.1, m)) by {
                assert((seq![m] + q.1)[0] == m);
                assert((seq![m] + q.1).drop_first() =~= q.1);
            }
            lemma_remove_all_id(q.1, m);
            assert(remove_all(q.0 + (seq![m] + q.1), m) == q.0 + q.1);
            lemma_reconcile_idempotent(items2, rest);
            assert(reconcile_spec(q.0 + q.1, rest) == q);
            assert(reconcile_spec(p.0 + p.1, ms) == (q.0, seq![m] + q.1, q.2));
        } else {
            lemma_reconcile_parts(items, rest);
            let q = reconcile_spec(items, rest);
            assert(p == (q.0, q.1, seq![m] + q.2));
            assert(!(q.0 + q.1).contains(m)) by {
                lemma_concat_contains(q.0, q.1, m);
            }
            lemma_reconcile_idempotent(items, rest);
            assert(reconcile_spec(q.0 + q.1, rest) == q);
            assert(reconcile_spec(p.0 + p.1, ms) == (q.0, q.1, seq![m] + q.2));
        }
    }
}

/// A bundle built by import has its three lists pairwise disjoint, whenever
/// the oracle's answer repeats no member.
pub proof fn lemma_import_disjoint(s: Seq<char>, now: i64, ms: Seq<u64>)
    requires
        nodup(ms),
        spec_import(s, now, Some(ms)) is Ok,
    ensures
        ({
            let b = spec_import(s, now, Some(ms))->Ok_0;
            let incl = b.include_items();
            let excl = match b.collection {
                Some(c) => c.excluded,
                None => Seq::<u64>::empty(),
            };
            &&& forall|x: u64| #[trigger] b.items.contains(x) ==> !incl.contains(x)
                && !excl.contains(x)
            &&& forall|x: u64| #[trigger] incl.contains(x) ==> !excl.contains(x)
        }),
{
    let raw = spec_parse(s);
    match raw.collection {
        Some(cid) => {
            lemma_reconcile_parts(raw.items, ms);
        },
        None => {
        },
    }
}

proof fn lemma_reconcile_keeps_some(items: Seq<u64>, ms: Seq<u64>)
    requires
        items.len() > 0,
    ensures
        reconcile_spec(items, ms).0.len() + reconcile_spec(items, ms).1.len() > 0,
    decreases ms.len(),
{
    if ms.len() > 0 && !items.contains(ms[0]) {
        lemma_reconcile_keeps_some(items, ms.drop_first());
    }
}

/// Importing what an exported bundle wrote, with the same oracle answer,
/// gives the bundle back: the same name, collection delta and items, only the
/// id and the update time may differ.
pub proof fn lemma_import_export_idempotent(
    s: Seq<char>,
    now1: i64,
    now2: i64,
    ms: Seq<u64>,
    names: Seq<(u64, Seq<char>)>,
    cname: Option<Seq<char>>,
)
    requires
        nodup(ms),
        spec_import(s, now1, Some(ms)) is Ok,
        name_exportable(spec_parse(s).name),
        names_clean(names),
        match cname {
            Some(n) => line_clean(n),
            None => true,
        },
        line_clean(rfc2822_format(spec_import(s, now1, Some(ms))->Ok_0.updated)),
    ensures
        ({
            let b1 = spec_import(s, now1, Some(ms))->Ok_0;
            let r2 = spec_import(export_text(b1, names, cname), now2, Some(ms));
            &&& r2 is Ok
            &&& r2->Ok_0.name == b1.name
            &&& r2->Ok_0.collection == b1.collection
            &&& r2->Ok_0.items == b1.items
        }),
{
    let raw = spec_parse(s);
    let b1 = spec_import(s, now1, Some(ms))->Ok_0;
    lemma_export_parse_round_trip(b1, names, cname);
    let raw2 = spec_parse(export_text(b1, names, cname));
    match raw.collection {
        None => {
            assert(b1.items == raw.items);
            assert(raw2.items =~= b1.items);
        },
        Some(cid) => {
            let p = reconcile_spec(raw.items, ms);
            assert(b1.items == p.0 && b1.collection == Some(
                CollectionLinkView { id: cid, included: p.1, excluded: p.2 },
            ));
            assert(raw2.items == p.0 + p.1);
            lemma_reconcile_keeps_some(raw.items, ms);
            lemma_reconcile_idempotent(raw.items, ms);
            assert(reconcile_spec(raw2.items, ms) == p);
        },
    }
}

/// A saved record survives a fresh load: loading the directory's records with
/// the bundle's own record added last is loading the rest and then upserting
/// the bundle, and the loaded store contains an equal bundle.
pub proof fn lemma_upsert_init_round_trip(files: Seq<Seq<u8>>, b: BundleView)
    requires
        enc_fits(b),
    ensures
        ({
            let q = init_fold(files);
            let p = init_fold(files.push(enc_bundle(b)));
            &&& p.0 == upsert_spec(q.0, b)
            &&& p.0.contains(b)
            &&& p.1 == if b.id > q.1 {
                b.id
            } else {
                q.1
            }
        }),
{
    lemma_binfmt_round_trip(b);
    assert(files.push(enc_bundle(b)).drop_last() =~= files);
    assert(files.push(enc_bundle(b)).last() == enc_bundle(b));
    lemma_init_fold_wf(files);
    let q = init_fold(files);
    let hw = if b.id > q.1 {
        b.id
    } else {
        q.1
    };
    assert(ids_at_most(q.0, hw));
    lemma_upsert_spec_props(q.0, b, hw);
}

} // verus!
