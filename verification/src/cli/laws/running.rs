//! What `run` hands to a child process and makes of its end, and what `inspect` prints.
use vstd::prelude::*;

use crate::cli::commands;
use crate::cli::commands::{exit_status_code, injected, inspection, presence_code};
use crate::cli::environment;
use crate::cli::environment::Pair;
use crate::cli::storage::join;

verus! {

/// The places of the variables that are chosen among the first `n`.
proof fn lemma_places(pairs: Seq<Pair>, present: Seq<bool>, replace: bool, n: int) -> (places: Seq<
    int,
>)
    requires
        0 <= n <= pairs.len(),
    ensures
        ({
            let chosen = commands::injected_pairs(pairs, present, replace, n);
            &&& places.len() == chosen.len()
            &&& places.len() <= n
            &&& forall|k: int|
                0 <= k < places.len() ==> 0 <= #[trigger] places[k] < n && chosen[k]
                    == pairs[places[k]]
            &&& forall|j: int, k: int|
                0 <= j < k < places.len() ==> #[trigger] places[j] < #[trigger] places[k]
            &&& forall|i: int|
                0 <= i < n ==> #[trigger] places.contains(i) == (replace || !present[i])
        }),
    decreases n,
{
    if n == 0 {
        Seq::empty()
    } else {
        let front = lemma_places(pairs, present, replace, n - 1);
        if replace || !present[n - 1] {
            let places = front.push(n - 1);
            assert forall|i: int| 0 <= i < n implies #[trigger] places.contains(i) == (replace
                || !present[i]) by {
                if i < n - 1 {
                    assert(front.contains(i) == (replace || !present[i]));
                    if front.contains(i) {
                        let k = front.index_of(i);
                        assert(places[k] == i);
                    }
                    if places.contains(i) {
                        let k = places.index_of(i);
                        assert(front[k] == i);
                    }
                } else {
                    assert(places[n - 1 - (n - 1) + front.len()] == i);
                }
            }
            places
        } else {
            assert(!front.contains(n - 1)) by {
                if front.contains(n - 1) {
                    let k = front.index_of(n - 1);
                    assert(front[k] < n - 1);
                }
            }
            front
        }
    }
}

/// A child process is given a variable if its environment lacks it, or if what is there is
/// to be replaced, and for no other reason: exactly these variables, each once, with their
/// values and in the order of the document.
pub proof fn law_variables_injected(
    environment: &Vec<(String, String)>,
    present: &Vec<bool>,
    replace: bool,
    chosen: Vec<(String, String)>,
)
    requires
        present@.len() == environment@.len(),
        call_ensures(injected, (environment, present, replace), chosen),
    ensures
        exists|places: Seq<int>|
            {
                &&& #[trigger] places.len() == chosen@.len()
                &&& forall|k: int|
                    0 <= k < places.len() ==> 0 <= #[trigger] places[k] < environment@.len()
                        && chosen@[k].0@ == environment@[places[k]].0@ && chosen@[k].1@
                        == environment@[places[k]].1@
                &&& forall|j: int, k: int|
                    0 <= j < k < places.len() ==> #[trigger] places[j] < #[trigger] places[k]
                &&& forall|i: int|
                    0 <= i < environment@.len() ==> #[trigger] places.contains(i) == (replace
                        || !present@[i])
            },
{
    let pairs = environment::pairs_of(environment@);
    let places = lemma_places(pairs, present@, replace, environment@.len() as int);
    let given = environment::pairs_of(chosen@);
    assert forall|k: int| 0 <= k < places.len() implies 0 <= #[trigger] places[k]
        < environment@.len() && chosen@[k].0@ == environment@[places[k]].0@ && chosen@[k].1@
        == environment@[places[k]].1@ by {
        assert(given[k] == pairs[places[k]]);
    }
}

/// Where nothing is present, and where everything is to be replaced, a child process is
/// given the whole document; where everything is present and nothing is to be replaced, it
/// is given nothing.
pub proof fn law_all_or_nothing_injected(
    environment: &Vec<(String, String)>,
    present: &Vec<bool>,
    replace: bool,
    chosen: Vec<(String, String)>,
)
    requires
        present@.len() == environment@.len(),
        call_ensures(injected, (environment, present, replace), chosen),
    ensures
        replace || (forall|i: int| 0 <= i < present@.len() ==> !#[trigger] present@[i])
            ==> chosen@.len() == environment@.len() && forall|i: int|
            0 <= i < environment@.len() ==> (#[trigger] chosen@[i]).0@ == environment@[i].0@
                && chosen@[i].1@ == environment@[i].1@,
        !replace && (forall|i: int| 0 <= i < present@.len() ==> #[trigger] present@[i])
            ==> chosen@.len() == 0,
{
    let n = environment@.len() as int;
    let pairs = environment::pairs_of(environment@);
    let given = environment::pairs_of(chosen@);
    let places = lemma_places(pairs, present@, replace, n);
    if replace || forall|i: int| 0 <= i < present@.len() ==> !#[trigger] present@[i] {
        lemma_all(pairs, present@, replace, n);
        assert forall|i: int| 0 <= i < n implies (#[trigger] chosen@[i]).0@ == environment@[i].0@
            && chosen@[i].1@ == environment@[i].1@ by {
            assert(given[i] == pairs[i]);
        }
    }
    if !replace && (forall|i: int| 0 <= i < present@.len() ==> #[trigger] present@[i]) {
        if places.len() > 0 {
            assert(places.contains(places[0]));
        }
    }
}

proof fn lemma_all(pairs: Seq<Pair>, present: Seq<bool>, replace: bool, n: int)
    requires
        0 <= n <= pairs.len(),
        replace || forall|i: int| 0 <= i < n ==> !#[trigger] present[i],
    ensures
        commands::injected_pairs(pairs, present, replace, n) == pairs.take(n),
    decreases n,
{
    if n > 0 {
        lemma_all(pairs, present, replace, n - 1);
        assert(pairs.take(n - 1).push(pairs[n - 1]) =~= pairs.take(n));
    } else {
        assert(pairs.take(0) =~= Seq::empty());
    }
}

/// The tool ends as the child process did: with its exit status where that is a number from
/// 0 to 255, with 128 and the signal where one ended it, and with 1 where neither is such a
/// number.
pub proof fn law_child_status(code: Option<i32>, signal: Option<i32>, status: u8)
    requires
        call_ensures(exit_status_code, (code, signal), status),
    ensures
        code matches Some(c) ==> status == if 0 <= c <= 255 {
            c as int
        } else {
            1
        },
        code is None ==> (signal matches Some(s) ==> status == if -128 <= s <= 127 {
            128 + s
        } else {
            1
        }),
        code is None && signal is None ==> status == 1,
{
}

/// Whoever asks for a variable that is there ends with 0, and with 1 else.
pub proof fn law_presence_status(found: bool, status: u8)
    requires
        call_ensures(presence_code, (found,), status),
    ensures
        found <==> status == 0,
        !found <==> status == 1,
{
}

/// An inspection says where the storage is and whether it is initialized; where it is, that
/// it is locked and which protectors it has.
pub proof fn law_inspection(
    path: &str,
    initialized: bool,
    names: &Vec<String>,
    list: String,
    text: String,
)
    requires
        call_ensures(join, (names,), list),
        call_ensures(inspection, (path, initialized, names), text),
    ensures
        text@ == "storage: "@ + path@ + if initialized {
            "\ninitialized: true\nstatus: locked\nprotectors: "@ + list@ + "\n"@
        } else {
            "\ninitialized: false\n"@
        },
{
    let rest = "\ninitialized: true\nstatus: locked\nprotectors: "@;
    assert("storage: "@ + path@ + rest + list@ + "\n"@ =~= "storage: "@ + path@ + (rest + list@
        + "\n"@));
}

} // verus!
