//! The printed form of a function operation: its visibility, operation name and symbol, its
//! parameters (with the entry block's arguments where it has a body), its results, and its
//! body or, for a declaration, a closing `;`.
//!
//! The texts of the parts that other printers produce (visibilities, types, values and the
//! body region) are given; this module lays them out.
use vstd::prelude::*;

verus! {

/// The body of a function definition, as far as its header shows it: the texts of the entry
/// block's arguments, and the text of the body region.
#[derive(Clone, Debug)]
pub struct FunctionBodyText {
    pub entry_args: Vec<String>,
    pub region: String,
}

/// The parts of a function operation that its printed form shows, each as text.
#[derive(Clone, Debug)]
pub struct FunctionParts {
    pub visibility: String,
    pub op_name: String,
    pub name: String,
    pub param_types: Vec<String>,
    pub result_types: Vec<String>,
    /// `None` for a declaration.
    pub body: Option<FunctionBodyText>,
}

/// `items` one after the other, separated by `", "`.
pub open spec fn comma_separated(items: Seq<Seq<char>>) -> Seq<char>
    decreases items.len(),
{
    if items.len() == 0 {
        Seq::empty()
    } else if items.len() == 1 {
        items[0]
    } else {
        comma_separated(items.drop_last()) + ", "@ + items.last()
    }
}

/// The texts of `v`.
pub open spec fn texts(v: Seq<String>) -> Seq<Seq<char>> {
    Seq::new(v.len(), |i: int| v[i]@)
}

/// The parameters a function's header lists: the parameter types of a declaration; for a
/// definition, each entry block argument with `": "` and the type of the parameter at its
/// position, as far as both go.
pub open spec fn param_items(f: FunctionParts) -> Seq<Seq<char>> {
    let types = f.param_types@;
    match f.body {
        None => texts(types),
        Some(b) => {
            let n = if b.entry_args@.len() < types.len() { b.entry_args@.len() } else { types.len() };
            Seq::new(n, |i: int| b.entry_args@[i]@ + ": "@ + types[i]@)
        },
    }
}

/// What follows the parameter list: nothing for a function without results, else `" -> "`
/// and the result types.
pub open spec fn results_text(f: FunctionParts) -> Seq<char> {
    if f.result_types@.len() == 0 {
        Seq::empty()
    } else {
        " -> "@ + comma_separated(texts(f.result_types@))
    }
}

/// The printed form of a function: visibility, a space, operation name, `" @"`, symbol name,
/// the parameters in round brackets, the results, then `";"` for a declaration, or a space, the
/// body and `";"` for a definition.
pub open spec fn function_text(f: FunctionParts) -> Seq<char> {
    f.visibility@ + " "@ + f.op_name@ + " @"@ + f.name@ + "("@ + comma_separated(param_items(f)) + ")"@
        + results_text(f) + match f.body {
        None => ";"@,
        Some(b) => " "@ + b.region@ + ";"@,
    }
}

/// One more item extends the separated list by a separator, where there was an item before,
/// and the item.
proof fn lemma_comma_separated_push(items: Seq<Seq<char>>, i: int)
    requires
        0 <= i < items.len(),
    ensures
        comma_separated(items.take(i + 1)) == comma_separated(items.take(i)) + (if i == 0 {
            Seq::<char>::empty()
        } else {
            ", "@
        }) + items[i],
{
    let t = items.take(i + 1);
    assert(t.drop_last() =~= items.take(i));
    assert(t.last() == items[i]);
    if i == 0 {
        assert(comma_separated(items.take(0)) =~= Seq::<char>::empty());
        assert(Seq::<char>::empty() + Seq::<char>::empty() + items[0] =~= items[0]);
    }
}

/// Append the separator that goes before item `i` of a list.
fn push_separator(s: &mut String, i: usize)
    ensures
        final(s)@ == old(s)@ + (if i == 0 {
            Seq::<char>::empty()
        } else {
            ", "@
        }),
{
    if i > 0 {
        s.append(", ");
    } else {
        assert(s@ =~= s@ + Seq::<char>::empty());
    }
}

/// Append `items`, separated by `", "`.
fn push_comma_separated(s: &mut String, items: &Vec<String>)
    ensures
        final(s)@ == old(s)@ + comma_separated(texts(items@)),
{
    let ghost start = s@;
    let ghost all = texts(items@);
    let mut i: usize = 0;
    while i < items.len()
        invariant
            i <= items@.len(),
            all == texts(items@),
            s@ == start + comma_separated(all.take(i as int)),
        decreases items@.len() - i,
    {
        proof {
            lemma_comma_separated_push(all, i as int);
        }
        push_separator(s, i);
        s.append(items[i].as_str());
        proof {
            assert(all[i as int] == items@[i as int]@);
        }
        i = i + 1;
    }
    proof {
        assert(all.take(items@.len() as int) =~= all);
    }
}

/// The printed form of a function operation from the texts of its parts.
pub fn print_function(f: &FunctionParts) -> (r: String)
    ensures
        r@ == function_text(*f),
{
    let mut s = String::new();
    s.append(f.visibility.as_str());
    s.append(" ");
    s.append(f.op_name.as_str());
    s.append(" @");
    s.append(f.name.as_str());
    s.append("(");
    let ghost before_params = s@;
    match &f.body {
        None => {
            push_comma_separated(&mut s, &f.param_types);
        },
        Some(b) => {
            let n = if b.entry_args.len() < f.param_types.len() { b.entry_args.len() } else { f.param_types.len() };
            let ghost items = param_items(*f);
            let mut i: usize = 0;
            while i < n
                invariant
                    i <= n,
                    n <= b.entry_args@.len(),
                    n <= f.param_types@.len(),
                    items == param_items(*f),
                    items.len() == n,
                    f.body == Some(*b),
                    s@ == before_params + comma_separated(items.take(i as int)),
                decreases n - i,
            {
                proof {
                    lemma_comma_separated_push(items, i as int);
                }
                push_separator(&mut s, i);
                s.append(b.entry_args[i].as_str());
                s.append(": ");
                s.append(f.param_types[i].as_str());
                proof {
                    assert(items[i as int] == b.entry_args@[i as int]@ + ": "@ + f.param_types@[i as int]@);
                    assert(s@ =~= before_params + comma_separated(items.take(i as int)) + (if i == 0 {
                        Seq::<char>::empty()
                    } else {
                        ", "@
                    }) + items[i as int]);
                }
                i = i + 1;
            }
            proof {
                assert(items.take(n as int) =~= items);
            }
        },
    }
    s.append(")");
    let ghost before_results = s@;
    if f.result_types.len() > 0 {
        s.append(" -> ");
        push_comma_separated(&mut s, &f.result_types);
    } else {
        assert(before_results + results_text(*f) =~= before_results);
    }
    let ghost after_results = s@;
    match &f.body {
        None => {
            s.append(";");
        },
        Some(b) => {
            s.append(" ");
            s.append(b.region.as_str());
            s.append(";");
        },
    }
    proof {
        assert(s@ =~= function_text(*f));
    }
    s
}

} // verus!
