//! The laws the reconciler and catalog obey, proved over their step
//! functions and models.

use vstd::prelude::*;

use crate::catalog::{
    cat_get, has_origin, keep_other_entries, lemma_cat_get_has, lemma_cat_get_push,
    lemma_keep_other_all, lemma_keep_other_get, lemma_keep_other_id, lemma_keep_other_push_same,
    lemma_keep_other_unique, lemma_keep_other_values, CatalogEntryV,
};
use crate::config::ConfigV;
use crate::dns_name::{lemma_root_is_suffix, lemma_suffix_same_len, suffix_of};
use crate::forwarder::forwarder_of;
use crate::resolver::{
    files_unique, has_file, lemma_tbl_get_has, lemma_tbl_get_push, lemma_tbl_get_witness,
    lemma_tbl_rm_all, lemma_tbl_rm_id, lemma_tbl_rm_keeps, lemma_tbl_rm_pairs,
    lemma_tbl_rm_push_same, lemma_tbl_rm_unique, lemma_tbl_rm_values, step_remove, step_set,
    tbl_get, tbl_rm, CollectionV, FileEntryV,
};

verus! {

/// No two files install rules for the same zone.
pub open spec fn domains_injective(s: Seq<FileEntryV>) -> bool {
    forall|i: int, j: int|
        0 <= i < j < s.len() ==> (#[trigger] s[i]).config.domain_name != (
        #[trigger] s[j]).config.domain_name
}

/// The reconciler and its catalog agree: files and origins are unique,
/// every installed rule's zone routes to exactly one entry, built from
/// that rule, and every route comes from an installed rule. The zone
/// half asks that no two files name the same zone; when they do, the
/// later upsert silently owns the route and a removal of its file
/// restores no predecessor.
pub open spec fn reconciled(v: CollectionV) -> bool {
    &&& files_unique(v.configs)
    &&& domains_injective(v.configs)
    &&& crate::catalog::origins_unique(v.catalog)
    &&& forall|i: int|
        0 <= i < v.configs.len() ==> cat_get(
            v.catalog,
            (#[trigger] v.configs[i]).config.domain_name,
        ) == Some(forwarder_of(v.configs[i].config))
    &&& forall|j: int|
        0 <= j < v.catalog.len() ==> exists|i: int|
            0 <= i < v.configs.len() && (#[trigger] v.configs[i]).config.domain_name == (
            #[trigger] v.catalog[j]).origin
}

/// Installing a rule for a zone no other file names keeps the
/// reconciler and catalog in agreement: after the step, every file's
/// rule still has exactly one catalog entry at its zone, built from
/// that rule.
pub proof fn lemma_step_set_reconciled(v: CollectionV, f: Seq<u8>, c: ConfigV)
    requires
        reconciled(v),
        forall|i: int|
            0 <= i < v.configs.len() && (#[trigger] v.configs[i]).filename != f
                ==> v.configs[i].config.domain_name != c.domain_name,
    ensures
        reconciled(step_set(v, f, c)),
{
    let s = v.configs;
    let cat = v.catalog;
    let d = c.domain_name;
    let w = step_set(v, f, c);
    let kept = tbl_rm(s, f);
    let e = FileEntryV { filename: f, config: c };
    let ed = CatalogEntryV { origin: d, forwarder: forwarder_of(c) };
    let base = match tbl_get(s, f) {
        Some(oc) => if oc.domain_name != d {
            keep_other_entries(cat, oc.domain_name)
        } else {
            cat
        },
        None => cat,
    };
    let kb = keep_other_entries(base, d);
    assert(w.configs == kept.push(e));
    assert(w.catalog == kb.push(ed));

    lemma_tbl_rm_unique(s, f);
    lemma_tbl_rm_all(s, f);

    // Each surviving table entry was an entry before, from another file.
    assert forall|x: int| 0 <= x < kept.len() implies ((#[trigger] kept[x]).filename != f
        && exists|i: int| 0 <= i < s.len() && #[trigger] s[i] == kept[x]) by {
        lemma_tbl_rm_values(s, f, x);
        if kept[x].filename == f {
            assert(has_file(kept, f));
        }
    }

    // Unique files after the step.
    assert forall|i: int, j: int| 0 <= i < j < w.configs.len() implies (#[trigger] w.configs[
        i
    ]).filename != (#[trigger] w.configs[j]).filename by {
        if j == w.configs.len() - 1 {
            assert(w.configs[i] == kept[i]);
        } else {
            assert(w.configs[i] == kept[i] && w.configs[j] == kept[j]);
        }
    }

    // Still no two files for one zone.
    assert forall|i: int, j: int| 0 <= i < j < w.configs.len() implies (#[trigger] w.configs[
        i
    ]).config.domain_name != (#[trigger] w.configs[j]).config.domain_name by {
        if j == w.configs.len() - 1 {
            assert(w.configs[i] == kept[i]);
            let oi = choose|oi: int| 0 <= oi < s.len() && #[trigger] s[oi] == kept[i];
            assert(s[oi].filename != f);
        } else {
            assert(w.configs[i] == kept[i] && w.configs[j] == kept[j]);
            lemma_tbl_rm_pairs(s, f, i, j);
        }
    }

    // Unique origins after the step.
    if tbl_get(s, f) is Some {
        let oc = tbl_get(s, f)->Some_0;
        if oc.domain_name != d {
            lemma_keep_other_unique(cat, oc.domain_name);
        }
    }
    lemma_keep_other_unique(base, d);
    lemma_keep_other_all(base, d);
    assert forall|i: int, j: int| 0 <= i < j < w.catalog.len() implies (#[trigger] w.catalog[
        i
    ]).origin != (#[trigger] w.catalog[j]).origin by {
        if j == w.catalog.len() - 1 {
            assert(w.catalog[i] == kb[i]);
            if kb[i].origin == d {
                assert(has_origin(kb, d));
            }
        } else {
            assert(w.catalog[i] == kb[i] && w.catalog[j] == kb[j]);
        }
    }

    // The file entry carrying `f`, when there is one.
    if tbl_get(s, f) is Some {
        lemma_tbl_get_witness(s, f);
    }

    // Every installed rule's zone routes to the Forwarder built from it.
    assert forall|i: int| 0 <= i < w.configs.len() implies cat_get(
        w.catalog,
        (#[trigger] w.configs[i]).config.domain_name,
    ) == Some(forwarder_of(w.configs[i].config)) by {
        let dn = w.configs[i].config.domain_name;
        lemma_cat_get_push(kb, ed, dn);
        lemma_keep_other_get(base, d, dn);
        if i == w.configs.len() - 1 {
            lemma_cat_get_has(kb, d);
        } else {
            assert(w.configs[i] == kept[i]);
            let oi = choose|oi: int| 0 <= oi < s.len() && #[trigger] s[oi] == kept[i];
            assert(s[oi].filename != f);
            assert(dn != d);
            match tbl_get(s, f) {
                Some(oc) => {
                    if oc.domain_name != d {
                        let wi = choose|wi: int|
                            0 <= wi < s.len() && (#[trigger] s[wi]).filename == f && s[wi].config
                                == oc;
                        assert(oi != wi);
                        if oi < wi {
                            assert(s[oi].config.domain_name != s[wi].config.domain_name);
                        } else {
                            assert(s[wi].config.domain_name != s[oi].config.domain_name);
                        }
                        lemma_keep_other_get(cat, oc.domain_name, dn);
                    }
                },
                None => {},
            }
        }
    }

    // Every route comes from an installed rule.
    assert forall|j: int| 0 <= j < w.catalog.len() implies exists|i: int|
        0 <= i < w.configs.len() && (#[trigger] w.configs[i]).config.domain_name == (
        #[trigger] w.catalog[j]).origin by {
        if j == w.catalog.len() - 1 {
            assert(w.configs[w.configs.len() - 1].config.domain_name == w.catalog[j].origin);
        } else {
            assert(w.catalog[j] == kb[j]);
            lemma_keep_other_values(base, d, j);
            let b = choose|b: int| 0 <= b < base.len() && #[trigger] base[b] == kb[j];
            if kb[j].origin == d {
                assert(has_origin(kb, d));
            }
            let origin = kb[j].origin;
            let cb: int = match tbl_get(s, f) {
                Some(oc) => {
                    if oc.domain_name != d {
                        lemma_keep_other_values(cat, oc.domain_name, b);
                        lemma_keep_other_all(cat, oc.domain_name);
                        let cb = choose|cb: int|
                            0 <= cb < cat.len() && #[trigger] cat[cb] == base[b];
                        if cat[cb].origin == oc.domain_name {
                            assert(has_origin(keep_other_entries(cat, oc.domain_name), oc.domain_name)) by {
                                assert(keep_other_entries(cat, oc.domain_name)[b].origin
                                    == oc.domain_name);
                            }
                        }
                        cb
                    } else {
                        b
                    }
                },
                None => b,
            };
            assert(0 <= cb < cat.len() && cat[cb] == kb[j]);
            let ci = choose|ci: int|
                0 <= ci < s.len() && (#[trigger] s[ci]).config.domain_name == cat[cb].origin;
            // The witness rule is not the replaced file's.
            assert(s[ci].filename != f) by {
                if s[ci].filename == f {
                    lemma_tbl_get_has(s, f);
                    let oc = tbl_get(s, f)->Some_0;
                    let wi = choose|wi: int|
                        0 <= wi < s.len() && (#[trigger] s[wi]).filename == f && s[wi].config
                            == oc;
                    if ci < wi {
                        assert(s[ci].filename != s[wi].filename);
                    } else if wi < ci {
                        assert(s[wi].filename != s[ci].filename);
                    }
                    assert(ci == wi);
                    if oc.domain_name != d {
                        lemma_keep_other_all(cat, oc.domain_name);
                        assert(has_origin(keep_other_entries(cat, oc.domain_name), oc.domain_name))
                            by {
                            assert(keep_other_entries(cat, oc.domain_name)[b].origin
                                == oc.domain_name);
                        }
                    }
                }
            }
            lemma_tbl_rm_keeps(s, f, ci);
            let x = choose|x: int| 0 <= x < kept.len() && #[trigger] kept[x] == s[ci];
            assert(w.configs[x] == kept[x]);
            assert(w.configs[x].config.domain_name == w.catalog[j].origin);
        }
    }
}

/// Dropping a file keeps the reconciler and catalog in agreement.
pub proof fn lemma_step_remove_reconciled(v: CollectionV, f: Seq<u8>)
    requires
        reconciled(v),
    ensures
        reconciled(step_remove(v, f)),
{
    let s = v.configs;
    let cat = v.catalog;
    let w = step_remove(v, f);
    match tbl_get(s, f) {
        None => {},
        Some(oc) => {
            let dn = oc.domain_name;
            lemma_tbl_get_witness(s, f);
            let wi = choose|wi: int|
                0 <= wi < s.len() && (#[trigger] s[wi]).filename == f && s[wi].config == oc;
            lemma_tbl_rm_unique(s, f);
            lemma_tbl_rm_all(s, f);
            lemma_keep_other_unique(cat, dn);
            lemma_keep_other_all(cat, dn);
            let kept = tbl_rm(s, f);
            let kb = keep_other_entries(cat, dn);
            assert(w.configs == kept && w.catalog == kb);

            assert forall|x: int| 0 <= x < kept.len() implies ((#[trigger] kept[x]).filename != f
                && exists|i: int| 0 <= i < s.len() && #[trigger] s[i] == kept[x]) by {
                lemma_tbl_rm_values(s, f, x);
                if kept[x].filename == f {
                    assert(has_file(kept, f));
                }
            }

            assert forall|i: int, j: int| 0 <= i < j < kept.len() implies (#[trigger] kept[
                i
            ]).config.domain_name != (#[trigger] kept[j]).config.domain_name by {
                lemma_tbl_rm_pairs(s, f, i, j);
            }

            assert forall|i: int| 0 <= i < kept.len() implies cat_get(
                kb,
                (#[trigger] kept[i]).config.domain_name,
            ) == Some(forwarder_of(kept[i].config)) by {
                let oi = choose|oi: int| 0 <= oi < s.len() && #[trigger] s[oi] == kept[i];
                assert(s[oi].filename != f);
                assert(oi != wi);
                if oi < wi {
                    assert(s[oi].config.domain_name != s[wi].config.domain_name);
                } else {
                    assert(s[wi].config.domain_name != s[oi].config.domain_name);
                }
                lemma_keep_other_get(cat, dn, kept[i].config.domain_name);
            }

            assert forall|j: int| 0 <= j < kb.len() implies exists|i: int|
                0 <= i < kept.len() && (#[trigger] kept[i]).config.domain_name == (#[trigger] kb[
                j
            ]).origin by {
                lemma_keep_other_values(cat, dn, j);
                let cb = choose|cb: int| 0 <= cb < cat.len() && #[trigger] cat[cb] == kb[j];
                if kb[j].origin == dn {
                    assert(has_origin(kb, dn)) by {
                        assert(kb[j].origin == dn);
                    }
                }
                let ci = choose|ci: int|
                    0 <= ci < s.len() && (#[trigger] s[ci]).config.domain_name == cat[cb].origin;
                assert(s[ci].filename != f) by {
                    if s[ci].filename == f {
                        if ci < wi {
                            assert(s[ci].filename != s[wi].filename);
                        } else if wi < ci {
                            assert(s[wi].filename != s[ci].filename);
                        }
                        assert(ci == wi);
                    }
                }
                lemma_tbl_rm_keeps(s, f, ci);
            }
        },
    }
}

/// Installing the same rule from the same file twice ends exactly where
/// installing it once does.
pub proof fn lemma_set_idempotent(v: CollectionV, f: Seq<u8>, c: ConfigV)
    ensures
        step_set(step_set(v, f, c), f, c) == step_set(v, f, c),
{
    let v1 = step_set(v, f, c);
    let d = c.domain_name;
    let e = FileEntryV { filename: f, config: c };
    let ed = CatalogEntryV { origin: d, forwarder: forwarder_of(c) };
    let kept = tbl_rm(v.configs, f);
    let base = match tbl_get(v.configs, f) {
        Some(oc) => if oc.domain_name != d {
            keep_other_entries(v.catalog, oc.domain_name)
        } else {
            v.catalog
        },
        None => v.catalog,
    };
    let kb = keep_other_entries(base, d);
    assert(v1.configs == kept.push(e) && v1.catalog == kb.push(ed));

    // The second step sees the rule just installed.
    lemma_tbl_rm_all(v.configs, f);
    lemma_tbl_get_has(kept, f);
    lemma_tbl_get_push(kept, e, f);
    assert(tbl_get(v1.configs, f) == Some(c));

    // Same table again.
    lemma_tbl_rm_push_same(kept, e, f);
    lemma_tbl_rm_id(kept, f);
    assert(tbl_rm(v1.configs, f) == kept);

    // Same catalog again.
    lemma_keep_other_push_same(kb, ed, d);
    lemma_keep_other_all(base, d);
    lemma_keep_other_id(kb, d);
    assert(keep_other_entries(v1.catalog, d) == kb);
    assert(step_set(v1, f, c).catalog == kb.push(ed));
    assert(step_set(v1, f, c) == v1);
}

/// Installing a rule, dropping its file, and installing it again ends
/// exactly where a single install does.
pub proof fn lemma_set_remove_set(v: CollectionV, f: Seq<u8>, c: ConfigV)
    ensures
        step_set(step_remove(step_set(v, f, c), f), f, c) == step_set(v, f, c),
{
    let v1 = step_set(v, f, c);
    let d = c.domain_name;
    let e = FileEntryV { filename: f, config: c };
    let ed = CatalogEntryV { origin: d, forwarder: forwarder_of(c) };
    let kept = tbl_rm(v.configs, f);
    let base = match tbl_get(v.configs, f) {
        Some(oc) => if oc.domain_name != d {
            keep_other_entries(v.catalog, oc.domain_name)
        } else {
            v.catalog
        },
        None => v.catalog,
    };
    let kb = keep_other_entries(base, d);
    assert(v1.configs == kept.push(e) && v1.catalog == kb.push(ed));

    lemma_tbl_rm_all(v.configs, f);
    lemma_tbl_get_has(kept, f);
    lemma_tbl_get_push(kept, e, f);
    assert(tbl_get(v1.configs, f) == Some(c));

    let v2 = step_remove(v1, f);
    lemma_tbl_rm_push_same(kept, e, f);
    lemma_tbl_rm_id(kept, f);
    assert(v2.configs == kept);
    lemma_keep_other_push_same(kb, ed, d);
    lemma_keep_other_all(base, d);
    lemma_keep_other_id(kb, d);
    assert(v2.catalog == kb);

    lemma_tbl_get_has(kept, f);
    assert(tbl_get(v2.configs, f) is None);
    assert(step_set(v2, f, c).configs == kept.push(e));
    lemma_keep_other_id(kb, d);
    assert(step_set(v2, f, c).catalog == kb.push(ed));
    assert(step_set(v2, f, c) == v1);
}

/// Dropping a file's rule leaves every zone other than that rule's own
/// routed exactly as before.
pub proof fn lemma_remove_frame(v: CollectionV, f: Seq<u8>, d: Seq<Seq<u8>>)
    requires
        match tbl_get(v.configs, f) {
            Some(oc) => d != oc.domain_name,
            None => true,
        },
    ensures
        cat_get(step_remove(v, f).catalog, d) == cat_get(v.catalog, d),
{
    match tbl_get(v.configs, f) {
        Some(oc) => {
            lemma_keep_other_get(v.catalog, oc.domain_name, d);
        },
        None => {},
    }
}

/// With a root-origin route installed, every query name matches some
/// route: the root acts as the default.
pub proof fn lemma_root_is_default(cat: Seq<CatalogEntryV>, q: Seq<Seq<u8>>)
    requires
        has_origin(cat, Seq::<Seq<u8>>::empty()),
    ensures
        exists|j: int| 0 <= j < cat.len() && suffix_of((#[trigger] cat[j]).origin, q),
{
    let i = choose|i: int|
        0 <= i < cat.len() && (#[trigger] cat[i]).origin == Seq::<Seq<u8>>::empty();
    lemma_root_is_suffix(q);
    assert(suffix_of(cat[i].origin, q));
}

/// Two files install rules for one zone: the later install owns the
/// route, and dropping the later file leaves the zone unrouted — the
/// earlier rule is not restored.
pub proof fn lemma_last_upsert_wins(
    v: CollectionV,
    f1: Seq<u8>,
    c1: ConfigV,
    f2: Seq<u8>,
    c2: ConfigV,
)
    requires
        f1 != f2,
        c1.domain_name == c2.domain_name,
    ensures
        cat_get(step_set(step_set(v, f1, c1), f2, c2).catalog, c2.domain_name) == Some(
            forwarder_of(c2),
        ),
        cat_get(
            step_remove(step_set(step_set(v, f1, c1), f2, c2), f2).catalog,
            c1.domain_name,
        ) is None,
{
    let v1 = step_set(v, f1, c1);
    let v2 = step_set(v1, f2, c2);
    let d = c2.domain_name;
    let e2 = FileEntryV { filename: f2, config: c2 };
    let ed2 = CatalogEntryV { origin: d, forwarder: forwarder_of(c2) };
    let base2 = match tbl_get(v1.configs, f2) {
        Some(oc) => if oc.domain_name != d {
            keep_other_entries(v1.catalog, oc.domain_name)
        } else {
            v1.catalog
        },
        None => v1.catalog,
    };
    let kb2 = keep_other_entries(base2, d);
    assert(v2.catalog == kb2.push(ed2));
    assert(v2.configs == tbl_rm(v1.configs, f2).push(e2));

    lemma_cat_get_push(kb2, ed2, d);
    lemma_keep_other_all(base2, d);
    lemma_cat_get_has(kb2, d);
    assert(cat_get(v2.catalog, d) == Some(forwarder_of(c2)));

    lemma_tbl_rm_all(v1.configs, f2);
    lemma_tbl_get_has(tbl_rm(v1.configs, f2), f2);
    lemma_tbl_get_push(tbl_rm(v1.configs, f2), e2, f2);
    assert(tbl_get(v2.configs, f2) == Some(c2));

    lemma_keep_other_get(v2.catalog, d, d);
    assert(cat_get(step_remove(v2, f2).catalog, c1.domain_name) is None);
}

/// A longest-suffix winner is unique: two maximal matching entries are
/// one and the same.
pub proof fn lemma_unique_longest_match(
    cat: Seq<CatalogEntryV>,
    q: Seq<Seq<u8>>,
    i: int,
    j: int,
)
    requires
        crate::catalog::origins_unique(cat),
        0 <= i < cat.len(),
        0 <= j < cat.len(),
        suffix_of(cat[i].origin, q),
        suffix_of(cat[j].origin, q),
        cat[i].origin.len() == cat[j].origin.len(),
    ensures
        i == j,
{
    lemma_suffix_same_len(cat[i].origin, cat[j].origin, q);
    if i < j {
        assert(cat[i].origin != cat[j].origin);
    } else if j < i {
        assert(cat[j].origin != cat[i].origin);
    }
}

} // verus!
