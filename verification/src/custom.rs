//! Rust functions of the annotated module that Fluent templates may call.

use vstd::prelude::*;
use crate::text::{text_eq, text_less, text_lt, upsert, lemma_upsert_at, copy_string, strictly_sorted, law_upsert_keeps_order};

verus! {

/// A Rust function callable from Fluent: its Rust name, the upper-case name
/// by which templates call it and its number of parameters.
pub struct CustomFunction {
    pub rust_ident: String,
    pub fluent_name: String,
    pub param_count: usize,
}

/// Index of the first custom function called `name` in Fluent, or -1.
pub open spec fn custom_index(cs: Seq<CustomFunction>, name: Seq<char>) -> int
    decreases cs.len(),
{
    if cs.len() == 0 {
        -1
    } else if cs[0].fluent_name@ == name {
        0
    } else {
        let r = custom_index(cs.drop_first(), name);
        if r < 0 {
            -1
        } else {
            r + 1
        }
    }
}

proof fn lemma_custom_index(cs: Seq<CustomFunction>, name: Seq<char>)
    ensures
        -1 <= custom_index(cs, name) < cs.len(),
        custom_index(cs, name) >= 0 ==> cs[custom_index(cs, name)].fluent_name@ == name,
        custom_index(cs, name) < 0 ==> forall|k: int| 0 <= k < cs.len() ==> #[trigger] cs[k].fluent_name@ != name,
        custom_index(cs, name) >= 0 ==> forall|k: int| 0 <= k < custom_index(cs, name) ==> #[trigger] cs[k].fluent_name@ != name,
    decreases cs.len(),
{
    if cs.len() > 0 && cs[0].fluent_name@ != name {
        lemma_custom_index(cs.drop_first(), name);
        assert forall|k: int| 1 <= k < cs.len() implies cs[k] == cs.drop_first()[k - 1] by {}
    }
}

/// Position of the custom function called `name` in Fluent.
pub fn find_custom(cs: &Vec<CustomFunction>, name: &str) -> (r: Option<usize>)
    ensures
        match r {
            Some(i) => i as int == custom_index(cs@, name@) && (i as int) < cs@.len(),
            None => custom_index(cs@, name@) == -1,
        },
{
    proof {
        lemma_custom_index(cs@, name@);
    }
    let mut i: usize = 0;
    while i < cs.len()
        invariant
            i <= cs.len(),
            forall|k: int| 0 <= k < i ==> #[trigger] cs@[k].fluent_name@ != name@,
            -1 <= custom_index(cs@, name@) < cs@.len(),
            custom_index(cs@, name@) < 0 ==> forall|k: int| 0 <= k < cs@.len() ==> #[trigger] cs@[k].fluent_name@ != name@,
            custom_index(cs@, name@) >= 0 ==> cs@[custom_index(cs@, name@)].fluent_name@ == name@,
            custom_index(cs@, name@) >= 0 ==> forall|k: int| 0 <= k < custom_index(cs@, name@) ==> #[trigger] cs@[k].fluent_name@ != name@,
        decreases cs.len() - i,
    {
        if crate::text::text_eq(cs[i].fluent_name.as_str(), name) {
            proof {
                let ci = custom_index(cs@, name@);
                assert(cs@[i as int].fluent_name@ == name@);
                if ci >= 0 && ci < i {
                    assert(cs@[ci].fluent_name@ != name@);
                }
            }
            return Some(i);
        }
        i = i + 1;
    }
    None
}

/// The signature of a function of the annotated module as the registration
/// reads it: its name, whether it takes `self`, and its number of parameters.
pub struct FnSignature {
    pub name: String,
    pub has_receiver: bool,
    pub param_count: usize,
}

/// Why a function cannot be registered: the function (by its position among
/// the functions), whether the fault lies in its `self` parameter (else in its
/// name), and the message.
pub struct RegisterError {
    pub item: usize,
    pub at_receiver: bool,
    pub message: String,
}

/// A custom function as values: Rust name, Fluent name, parameter count.
pub type CustomView = (Seq<char>, Seq<char>, usize);

pub open spec fn custom_view(c: CustomFunction) -> CustomView {
    (c.rust_ident@, c.fluent_name@, c.param_count)
}

pub open spec fn customs_view(cs: Seq<CustomFunction>) -> Seq<CustomView> {
    cs.map_values(|c: CustomFunction| custom_view(c))
}

/// Custom functions are kept by Fluent name.
pub open spec fn by_fluent_name() -> spec_fn(CustomView) -> Seq<char> {
    |c: CustomView| c.1
}

/// What `str::to_uppercase` gives for a text.
pub uninterp spec fn upper_case(text: Seq<char>) -> Seq<char>;

/// The upper-case form of a text (`str::to_uppercase`).
#[verifier::external_body]
fn to_upper(text: &str) -> (r: String)
    ensures
        r@ == upper_case(text@),
{
    text.to_uppercase()
}

/// The names of the functions that Fluent provides itself.
pub open spec fn builtin_function(name: Seq<char>) -> bool {
    name == "NUMBER"@ || name == "DATETIME"@ || name == "VOID"@
}

/// Index of the first function with Fluent name `name`, or -1.
pub open spec fn fluent_index(cs: Seq<CustomView>, name: Seq<char>) -> int
    decreases cs.len(),
{
    if cs.len() == 0 {
        -1
    } else if cs[0].1 == name {
        0
    } else {
        let r = fluent_index(cs.drop_first(), name);
        if r < 0 {
            -1
        } else {
            r + 1
        }
    }
}

/// Registering goes on with the functions so far, or has failed.
pub enum Registration {
    Going(Seq<CustomView>),
    Failed { item: int, at_receiver: bool, message: Seq<char> },
}

/// Registering function number `item` with signature `sig` under the Fluent
/// name `upper`: it may not take `self`, nor take the name of a built-in
/// function or of a function registered before.
pub open spec fn register_one(cs: Seq<CustomView>, item: int, sig: FnSignature, upper: Seq<char>) -> Registration {
    let name = sig.name@;
    if sig.has_receiver {
        Registration::Failed { item: item, at_receiver: true, message: "Custom Fluent functions cannot have a 'self' parameter"@ }
    } else if builtin_function(upper) {
        Registration::Failed { item: item, at_receiver: false, message:
            "Cannot define custom function '"@ + name + "': '"@ + upper + "' is a built-in Fluent function"@ }
    } else if fluent_index(cs, upper) >= 0 {
        Registration::Failed { item: item, at_receiver: false, message:
            "Duplicate Fluent function name '"@ + upper + "' for Rust functions '"@ + cs[fluent_index(cs, upper)].0
                + "' and '"@ + name + "'"@ }
    } else {
        Registration::Going(upsert(cs, by_fluent_name(), (name, upper, sig.param_count)))
    }
}

/// Registering the functions in order, each under the upper case of its name.
pub open spec fn register_all(sigs: Seq<FnSignature>) -> Registration
    decreases sigs.len(),
{
    if sigs.len() == 0 {
        Registration::Going(Seq::empty())
    } else {
        match register_all(sigs.drop_last()) {
            Registration::Going(cs) => register_one(cs, sigs.len() - 1, sigs.last(), upper_case(sigs.last().name@)),
            failed => failed,
        }
    }
}

proof fn lemma_fluent_index(cs: Seq<CustomView>, name: Seq<char>)
    ensures
        -1 <= fluent_index(cs, name) < cs.len(),
        fluent_index(cs, name) >= 0 ==> cs[fluent_index(cs, name)].1 == name,
        fluent_index(cs, name) < 0 ==> forall|k: int| 0 <= k < cs.len() ==> #[trigger] cs[k].1 != name,
        fluent_index(cs, name) >= 0 ==> forall|k: int| 0 <= k < fluent_index(cs, name) ==> #[trigger] cs[k].1 != name,
    decreases cs.len(),
{
    if cs.len() > 0 && cs[0].1 != name {
        lemma_fluent_index(cs.drop_first(), name);
        assert forall|k: int| 1 <= k < cs.len() implies cs[k] == cs.drop_first()[k - 1] by {}
    }
}

fn fluent_slot(cs: &Vec<CustomFunction>, name: &str) -> (p: usize)
    ensures
        p <= cs.len(),
        forall|i: int| 0 <= i < p ==> text_lt(#[trigger] customs_view(cs@)[i].1, name@),
        p < cs.len() ==> !text_lt(customs_view(cs@)[p as int].1, name@),
{
    let mut i: usize = 0;
    while i < cs.len()
        invariant
            i <= cs.len(),
            forall|j: int| 0 <= j < i ==> text_lt(#[trigger] customs_view(cs@)[j].1, name@),
        decreases cs.len() - i,
    {
        if !text_less(cs[i].fluent_name.as_str(), name) {
            return i;
        }
        i = i + 1;
    }
    i
}

fn fluent_position(cs: &Vec<CustomFunction>, name: &str) -> (r: Option<usize>)
    ensures
        match r {
            Some(i) => i == fluent_index(customs_view(cs@), name@) && i < cs.len(),
            None => fluent_index(customs_view(cs@), name@) < 0,
        },
{
    let ghost v = customs_view(cs@);
    proof {
        lemma_fluent_index(v, name@);
    }
    let mut i: usize = 0;
    while i < cs.len()
        invariant
            i <= cs.len(),
            v == customs_view(cs@),
            forall|k: int| 0 <= k < i ==> #[trigger] v[k].1 != name@,
            -1 <= fluent_index(v, name@) < v.len(),
            fluent_index(v, name@) >= 0 ==> v[fluent_index(v, name@)].1 == name@,
            fluent_index(v, name@) >= 0 ==> forall|k: int| 0 <= k < fluent_index(v, name@) ==> #[trigger] v[k].1 != name@,
        decreases cs.len() - i,
    {
        assert(v[i as int].1 == cs@[i as int].fluent_name@);
        if text_eq(cs[i].fluent_name.as_str(), name) {
            proof {
                let fi = fluent_index(v, name@);
                if fi >= 0 && fi < i {
                    assert(v[fi].1 != name@);
                }
                if fi < 0 {
                    lemma_fluent_index(v, name@);
                }
            }
            return Some(i);
        }
        i = i + 1;
    }
    proof {
        let fi = fluent_index(v, name@);
        if fi >= 0 {
            assert(v[fi].1 == name@);
        }
    }
    None
}

/// Registers function number `item` with signature `sig` under the Fluent name `upper`.
pub fn register_function(cs: &mut Vec<CustomFunction>, item: usize, sig: &FnSignature, upper: String) -> (r: Result<(), RegisterError>)
    ensures
        match r {
            Ok(_) => register_one(customs_view(old(cs)@), item as int, *sig, upper@) == Registration::Going(customs_view(final(cs)@)),
            Err(e) => register_one(customs_view(old(cs)@), item as int, *sig, upper@)
                == (Registration::Failed { item: e.item as int, at_receiver: e.at_receiver, message: e.message@ }),
        },
{
    let ghost v = customs_view(cs@);
    if sig.has_receiver {
        let mut m = String::new();
        m.append("Custom Fluent functions cannot have a 'self' parameter");
        return Err(RegisterError { item, at_receiver: true, message: m });
    }
    if text_eq(upper.as_str(), "NUMBER") || text_eq(upper.as_str(), "DATETIME") || text_eq(upper.as_str(), "VOID") {
        let mut m = String::new();
        m.append("Cannot define custom function '");
        m.append(sig.name.as_str());
        m.append("': '");
        m.append(upper.as_str());
        m.append("' is a built-in Fluent function");
        return Err(RegisterError { item, at_receiver: false, message: m });
    }
    match fluent_position(cs, upper.as_str()) {
        Some(i) => {
            let mut m = String::new();
            m.append("Duplicate Fluent function name '");
            m.append(upper.as_str());
            m.append("' for Rust functions '");
            m.append(cs[i].rust_ident.as_str());
            m.append("' and '");
            m.append(sig.name.as_str());
            m.append("'");
            return Err(RegisterError { item, at_receiver: false, message: m });
        },
        None => {},
    }
    let p = fluent_slot(cs, upper.as_str());
    let ghost x = (sig.name@, upper@, sig.param_count);
    proof {
        assert forall|i: int| 0 <= i < p implies text_lt(#[trigger] by_fluent_name()(v[i]), by_fluent_name()(x)) by {
            assert(v[i].1 == customs_view(cs@)[i].1);
        }
        lemma_upsert_at(v, by_fluent_name(), x, p as int);
        lemma_fluent_index(v, upper@);
        if p < cs.len() {
            assert(v[p as int].1 != upper@);
        }
    }
    let f = CustomFunction { rust_ident: copy_string(&sig.name), fluent_name: upper, param_count: sig.param_count };
    cs.insert(p, f);
    assert(customs_view(cs@) =~= v.take(p as int) + seq![x] + v.skip(p as int));
    Ok(())
}

/// Registers the functions of the annotated module in order, each under the
/// upper case of its name, stopping at the first that cannot be registered.
pub fn register_custom_functions(sigs: &Vec<FnSignature>) -> (r: Result<Vec<CustomFunction>, RegisterError>)
    ensures
        match r {
            Ok(cs) => register_all(sigs@) == Registration::Going(customs_view(cs@)),
            Err(e) => register_all(sigs@) == (Registration::Failed { item: e.item as int, at_receiver: e.at_receiver, message: e.message@ }),
        },
{
    let mut cs: Vec<CustomFunction> = Vec::new();
    let mut i: usize = 0;
    assert(customs_view(cs@) =~= Seq::<CustomView>::empty());
    assert(sigs@.take(0) =~= Seq::<FnSignature>::empty());
    while i < sigs.len()
        invariant
            i <= sigs.len(),
            register_all(sigs@.take(i as int)) == Registration::Going(customs_view(cs@)),
        decreases sigs.len() - i,
    {
        let sig = &sigs[i];
        let upper = to_upper(sig.name.as_str());
        proof {
            assert(sigs@.take(i as int + 1).drop_last() =~= sigs@.take(i as int));
            assert(sigs@.take(i as int + 1).last() == *sig);
        }
        match register_function(&mut cs, i, sig, upper) {
            Ok(_) => {},
            Err(e) => {
                proof {
                    lemma_failed_stays(sigs@, i as int + 1);
                }
                return Err(e);
            },
        }
        i = i + 1;
    }
    assert(sigs@.take(sigs.len() as int) =~= sigs@);
    Ok(cs)
}

proof fn lemma_failed_stays(sigs: Seq<FnSignature>, k: int)
    requires
        0 <= k <= sigs.len(),
        register_all(sigs.take(k)) is Failed,
    ensures
        register_all(sigs) == register_all(sigs.take(k)),
    decreases sigs.len() - k,
{
    if k == sigs.len() {
        assert(sigs.take(k) =~= sigs);
    } else {
        assert(sigs.take(k + 1).drop_last() =~= sigs.take(k));
        lemma_failed_stays(sigs, k + 1);
    }
}

/// Registered functions: ordered by Fluent name with no name twice, each
/// under the upper case of its Rust name, none under a built-in name.
pub open spec fn registered_well_formed(cs: Seq<CustomView>) -> bool {
    &&& strictly_sorted(cs, by_fluent_name())
    &&& forall|i: int| 0 <= i < cs.len() ==> (#[trigger] cs[i]).1 == upper_case(cs[i].0) && !builtin_function(cs[i].1)
}

/// When registration succeeds, every function is registered under the upper
/// case of its name, with its number of parameters; the Fluent names are
/// distinct and none is that of a built-in function.
pub proof fn law_registered_functions(sigs: Seq<FnSignature>)
    ensures
        register_all(sigs) matches Registration::Going(cs) ==> {
            &&& registered_well_formed(cs)
            &&& forall|k: int| 0 <= k < sigs.len() ==> cs.contains(
                (#[trigger] sigs[k].name@, upper_case(sigs[k].name@), sigs[k].param_count))
        },
    decreases sigs.len(),
{
    if sigs.len() > 0 {
        let init = sigs.drop_last();
        law_registered_functions(init);
        match register_all(init) {
            Registration::Going(cs) => {
                let sig = sigs.last();
                let upper = upper_case(sig.name@);
                if !sig.has_receiver && !builtin_function(upper) && fluent_index(cs, upper) < 0 {
                    let x = (sig.name@, upper, sig.param_count);
                    law_upsert_keeps_order(cs, by_fluent_name(), x);
                    lemma_fluent_index(cs, upper);
                    let u = upsert(cs, by_fluent_name(), x);
                    assert forall|i: int| 0 <= i < u.len() implies (#[trigger] u[i]).1 == upper_case(u[i].0) && !builtin_function(u[i].1) by {
                        assert(u.contains(u[i]));
                        if u[i] != x {
                            let k = choose|k: int| 0 <= k < cs.len() && cs[k] == u[i];
                            assert(cs[k].1 == upper_case(cs[k].0));
                        }
                    }
                    assert forall|k: int| 0 <= k < sigs.len() implies u.contains(
                        (#[trigger] sigs[k].name@, upper_case(sigs[k].name@), sigs[k].param_count)) by {
                        if k < sigs.len() - 1 {
                            assert(init[k] == sigs[k]);
                            let y = (sigs[k].name@, upper_case(sigs[k].name@), sigs[k].param_count);
                            assert(cs.contains(y));
                            let m = choose|m: int| 0 <= m < cs.len() && cs[m] == y;
                            assert(cs[m].1 != upper);
                        }
                    }
                }
            },
            _ => {},
        }
    }
}

} // verus!
