//! Symbol → sector/industry classification.

use vstd::prelude::*;


verus! {

/// The sector a symbol is filed under: its industry, else its category, else `Other`.
pub open spec fn sector_spec(industry: Seq<char>, category: Seq<char>) -> Seq<char> {
    if industry.len() > 0 {
        industry
    } else if category.len() > 0 {
        category
    } else {
        "Other"@
    }
}

/// The sector of a contract from its IBKR details.
pub fn sector_name(industry: &str, category: &str) -> (r: String)
    ensures
        r@ == sector_spec(industry@, category@),
{
    proof {
        reveal_strlit("Other");
    }
    if industry.unicode_len() > 0 {
        industry.to_string()
    } else if category.unicode_len() > 0 {
        category.to_string()
    } else {
        "Other".to_string()
    }
}

/// The symbols whose sector is not cached yet, in order.
pub open spec fn missing_spec(symbols: Seq<String>, cache: Seq<(String, String)>) -> Seq<String>
    decreases symbols.len(),
{
    if symbols.len() == 0 {
        symbols
    } else {
        let rest = missing_spec(symbols.drop_last(), cache);
        if exists|i: int| 0 <= i < cache.len() && cache[i].0@ == symbols.last()@ {
            rest
        } else {
            rest.push(symbols.last())
        }
    }
}

/// The symbols to look up: those not in the cache.
pub fn symbols_to_classify(symbols: &[String], cache: &[(String, String)]) -> (r: Vec<String>)
    ensures
        r@ == missing_spec(symbols@, cache@),
{
    let mut out: Vec<String> = Vec::new();
    let mut i: usize = 0;
    proof {
        assert(symbols@.take(0) =~= Seq::<String>::empty());
    }
    while i < symbols.len()
        invariant
            i <= symbols@.len(),
            out@ == missing_spec(symbols@.take(i as int), cache@),
        decreases symbols.len() - i,
    {
        let mut j: usize = 0;
        let mut found = false;
        while j < cache.len()
            invariant
                j <= cache@.len(),
                i < symbols@.len(),
                found == exists|k: int| 0 <= k < j && cache@[k].0@ == symbols@[i as int]@,
            decreases cache.len() - j,
        {
            if cache[j].0 == symbols[i] {
                found = true;
            }
            j = j + 1;
        }
        proof {
            assert(symbols@.take(i + 1).drop_last() =~= symbols@.take(i as int));
            assert(symbols@.take(i + 1).last() == symbols@[i as int]);
        }
        if !found {
            out.push(symbols[i].clone());
        }
        i = i + 1;
    }
    proof {
        assert(symbols@.take(i as int) =~= symbols@);
    }
    out
}

} // verus!
