//! What an unknown key inside the JSON form of a model does to reading the
//! whole model.
use vstd::prelude::*;

use crate::json_read::{
    cons_list_spec, cons_spec, decl_spec, decls_spec, law_unknown_inner_key_refused, read_model_spec,
    reading_start, top_spec, top_step, var_keys, Reading, SJson,
};
use crate::names::{extend_uninit, intern_spec, Names};

verus! {

/// The entry `e` of the top-level object holds an object with a key that the
/// format does not know: the `q`-th variable or array, the `q`-th constraint,
/// or the solve item, whose `i`-th key is unknown.
pub open spec fn inner_key_unknown(e: (Seq<char>, SJson), q: int, i: int) -> bool {
    if e.0 == "variables"@ || e.0 == "arrays"@ {
        &&& e.1 matches SJson::Object(g)
        &&& 0 <= q < g.len()
        &&& g[q].1 matches SJson::Object(h)
        &&& 0 <= i < h.len()
        &&& if e.0 == "variables"@ {
            !var_keys().contains(h[i].0)
        } else {
            !seq!["a"@, "ann"@, "defined"@, "introduced"@].contains(h[i].0)
        }
    } else if e.0 == "constraints"@ {
        &&& e.1 matches SJson::Array(items)
        &&& 0 <= q < items.len()
        &&& items[q] matches SJson::Object(h)
        &&& 0 <= i < h.len()
        &&& !seq!["id"@, "args"@, "defines"@, "ann"@].contains(h[i].0)
    } else if e.0 == "solve"@ {
        &&& e.1 matches SJson::Object(h)
        &&& 0 <= i < h.len()
        &&& !seq!["method"@, "objective"@, "ann"@].contains(h[i].0)
    } else {
        false
    }
}

/// An entry that fails to read in every state makes the entries fail.
proof fn lemma_top_fails_at(st: Reading, f: Seq<(Seq<char>, SJson)>, p: int)
    requires
        0 <= p < f.len(),
        forall|s: Reading| (#[trigger] top_step(s, f[p])) is Err,
    ensures
        top_spec(st, f) is Err,
    decreases p,
{
    if p > 0 {
        if let Ok(st2) = top_step(st, f[0]) {
            assert(f.drop_first()[p - 1] == f[p]);
            lemma_top_fails_at(st2, f.drop_first(), p - 1);
        }
    } else {
        assert(top_step(st, f[0]) is Err);
    }
}

/// A declaration that fails to read in every state makes the declarations
/// fail.
proof fn lemma_decls_fail_at(st: Reading, g: Seq<(Seq<char>, SJson)>, q: int, arrays: bool)
    requires
        0 <= q < g.len(),
        forall|s: Reading| (#[trigger] decl_spec(s, g[q], arrays)) is Err,
    ensures
        decls_spec(st, g, arrays) is Err,
    decreases q,
{
    if q > 0 {
        if let Ok(st2) = decl_spec(st, g[0], arrays) {
            assert(g.drop_first()[q - 1] == g[q]);
            lemma_decls_fail_at(st2, g.drop_first(), q - 1, arrays);
        }
    } else {
        assert(decl_spec(st, g[0], arrays) is Err);
    }
}

/// A constraint that fails to read with every name table makes the list
/// fail.
proof fn lemma_cons_fail_at(st: Reading, items: Seq<SJson>, q: int)
    requires
        0 <= q < items.len(),
        forall|n: Names| (#[trigger] cons_spec(items[q], n)).0 is Err,
    ensures
        cons_list_spec(st, items) is Err,
    decreases q,
{
    if q > 0 {
        let c = cons_spec(items[0], st.names);
        if c.0 is Ok {
            assert(items.drop_first()[q - 1] == items[q]);
            lemma_cons_fail_at(
                Reading {
                    names: c.1,
                    decls: extend_uninit(st.decls, c.1.len()),
                    constraints: st.constraints.push(c.0->Ok_0),
                    ..st
                },
                items.drop_first(),
                q - 1,
            );
        }
    } else {
        assert(cons_spec(items[0], st.names).0 is Err);
    }
}

/// The keys of the top-level object are different words.
proof fn lemma_top_keys_differ()
    ensures
        "variables"@ != "arrays"@,
        "variables"@ != "constraints"@,
        "variables"@ != "solve"@,
        "arrays"@ != "constraints"@,
        "arrays"@ != "solve"@,
        "constraints"@ != "solve"@,
        "output"@ != "solve"@,
        "output"@ != "constraints"@,
{
    reveal_strlit("variables");
    reveal_strlit("arrays");
    reveal_strlit("constraints");
    reveal_strlit("solve");
    reveal_strlit("output");
    assert("variables"@.len() == 9);
    assert("arrays"@.len() == 6);
    assert("constraints"@.len() == 11);
    assert("solve"@.len() == 5);
    assert("output"@.len() == 6);
}

/// A declaration entry with an unknown key inside fails in every state.
proof fn lemma_decl_entry_fails(s: Reading, e: (Seq<char>, SJson), q: int, i: int)
    requires
        e.0 == "variables"@ || e.0 == "arrays"@,
        inner_key_unknown(e, q, i),
    ensures
        top_step(s, e) is Err,
{
    lemma_top_keys_differ();
    if !s.seen.contains(e.0) {
        let st1 = Reading { seen: s.seen.push(e.0), ..s };
        let arrays = e.0 == "arrays"@;
        if let SJson::Object(g) = e.1 {
            if let SJson::Object(h) = g[q].1 {
                assert forall|s2: Reading| (#[trigger] decl_spec(s2, g[q], arrays)) is Err by {
                    law_unknown_inner_key_refused(h, intern_spec(s2.names, g[q].0).0, i);
                }
                lemma_decls_fail_at(st1, g, q, arrays);
            }
        }
    }
}

/// A constraints entry with an unknown key inside fails in every state.
proof fn lemma_cons_entry_fails(s: Reading, e: (Seq<char>, SJson), q: int, i: int)
    requires
        e.0 == "constraints"@,
        inner_key_unknown(e, q, i),
    ensures
        top_step(s, e) is Err,
{
    lemma_top_keys_differ();
    if !s.seen.contains(e.0) {
        let st1 = Reading { seen: s.seen.push(e.0), ..s };
        if let SJson::Array(items) = e.1 {
            if let SJson::Object(h) = items[q] {
                assert forall|n: Names| (#[trigger] cons_spec(items[q], n)).0 is Err by {
                    law_unknown_inner_key_refused(h, n, i);
                }
                lemma_cons_fail_at(st1, items, q);
            }
        }
    }
}

/// A solve entry with an unknown key fails in every state.
proof fn lemma_solve_entry_fails(s: Reading, e: (Seq<char>, SJson), i: int)
    requires
        e.0 == "solve"@,
        inner_key_unknown(e, 0, i),
    ensures
        top_step(s, e) is Err,
{
    lemma_top_keys_differ();
    if let SJson::Object(h) = e.1 {
        law_unknown_inner_key_refused(h, s.names, i);
    }
}

/// A key that the format does not know, in a variable, an array, a
/// constraint or the solve item anywhere in the JSON form of a model, makes
/// reading the whole model fail.
pub proof fn law_unknown_inner_key_refuses_model(f: Seq<(Seq<char>, SJson)>, p: int, q: int, i: int)
    requires
        0 <= p < f.len(),
        inner_key_unknown(f[p], q, i),
    ensures
        read_model_spec(f) is Err,
{
    let e = f[p];
    assert forall|s: Reading| (#[trigger] top_step(s, e)) is Err by {
        if e.0 == "variables"@ || e.0 == "arrays"@ {
            lemma_decl_entry_fails(s, e, q, i);
        } else if e.0 == "constraints"@ {
            lemma_cons_entry_fails(s, e, q, i);
        } else {
            lemma_solve_entry_fails(s, e, i);
        }
    }
    lemma_top_fails_at(reading_start(), f, p);
}

} // verus!
