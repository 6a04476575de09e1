//! What the smaller parts of a node guarantee, in plain numbers.
use crate::annotations::{
    hinted, needs_approval, no_hints, plain_annotations, RmcpToolAnnotations, ToolAnnotations,
};
use crate::crdt_kv::crdt::{engine_for, route, MapView};
use crate::crdt_kv::engine::any::{fresh_engine, MergeStrategy};
use crate::crdt_kv::kv_store::bumped;
use crate::crdt_kv::map_laws::law_key_goes_to_its_prefix;
use crate::gossip_service::{cluster_with_all, peer_after_all, round_batches, NodeView};
use crate::inflight::{budget_units, reservation, units_of, InflightRefusal};
use crate::inventory::{expired, qualified_parts, qualified_text};
use crate::kv::{registers_at, RoundView};
use crate::least_load::{
    chosen, is_contested, law_choice_is_healthy, loads_with, LoadReport, WorkerLoad,
};
use crate::reasoning_parser::base::{fresh, told_apart, Split};
use crate::reasoning_parser::mistral::mistral_config;
use crate::reasoning_parser::step3p5::step3p5_config;
use crate::reasoning_parser::stream_laws::{
    first_behind, holds_none, law_reasoning_stands_between_the_markers,
    law_unfinished_reasoning_is_all_reasoning,
};
use crate::text_laws::stands_at;
use crate::tool_parser::markup_laws::law_first_character_is_found;
use crate::transport::chunking::EntryView;
use crate::transport::sync_stream::{chunks_of, values_for};
use crate::transport::wire_laws::{law_groups_are_filled, sum_sizes};
use vstd::prelude::*;
use vstd::utf8::encode_utf8;

verus! {

// ---- Nodes of a cluster ----

/// What is known of a node is what was heard of it with the largest version, and of
/// reports with one version the first.
pub proof fn law_newest_report_of_a_node_counts(
    cluster: Map<Seq<char>, NodeView>,
    nodes: Seq<NodeView>,
    name: Seq<char>,
)
    ensures
        ({
            let now = cluster_with_all(cluster, nodes);
            &&& now.contains_key(name) <==> cluster.contains_key(name) || exists|i: int|
                0 <= i < nodes.len() && (#[trigger] nodes[i]).name == name
            &&& forall|i: int|
                0 <= i < nodes.len() && (#[trigger] nodes[i]).name == name ==> now[name].version
                    >= nodes[i].version
            &&& cluster.contains_key(name) ==> now[name].version >= cluster[name].version
            &&& now.contains_key(name) ==> (cluster.contains_key(name) && now[name]
                == cluster[name]) || exists|i: int|
                0 <= i < nodes.len() && #[trigger] nodes[i] == now[name] && nodes[i].name == name
                    && (cluster.contains_key(name) ==> nodes[i].version > cluster[name].version) && (
                forall|j: int|
                    0 <= j < i && (#[trigger] nodes[j]).name == name ==> nodes[j].version
                        < nodes[i].version)
        }),
    decreases nodes.len(),
{
    if nodes.len() > 0 {
        let init = nodes.drop_last();
        let last = nodes.last();
        let n = nodes.len() - 1;
        assert(nodes[n] == last);
        law_newest_report_of_a_node_counts(cluster, init, name);
        let mid = cluster_with_all(cluster, init);
        let now = cluster_with_all(cluster, nodes);
        assert forall|i: int| 0 <= i < nodes.len() && (#[trigger] nodes[i]).name == name implies now[
        name].version >= nodes[i].version by {
            if i < n {
                assert(init[i] == nodes[i]);
            }
        }
        if exists|i: int| 0 <= i < init.len() && (#[trigger] init[i]).name == name {
            let i = choose|i: int| 0 <= i < init.len() && (#[trigger] init[i]).name == name;
            assert(nodes[i].name == name);
        }
        if exists|i: int| 0 <= i < nodes.len() && (#[trigger] nodes[i]).name == name {
            let i = choose|i: int| 0 <= i < nodes.len() && (#[trigger] nodes[i]).name == name;
            if i < n {
                assert(init[i].name == name);
            }
        }
        if now.contains_key(name) && !(cluster.contains_key(name) && now[name] == cluster[name]) {
            if mid.contains_key(name) && now[name] == mid[name] {
                let i = choose|i: int|
                    0 <= i < init.len() && #[trigger] init[i] == mid[name] && init[i].name == name
                        && (cluster.contains_key(name) ==> init[i].version > cluster[name].version)
                        && (forall|j: int|
                        0 <= j < i && (#[trigger] init[j]).name == name ==> init[j].version
                            < init[i].version);
                assert(nodes[i] == now[name]);
                assert forall|j: int| 0 <= j < i && (#[trigger] nodes[j]).name == name implies nodes[
                j].version < nodes[i].version by {
                    assert(init[j] == nodes[j]);
                }
            } else {
                assert(nodes[n] == now[name]);
                assert forall|j: int| 0 <= j < n && (#[trigger] nodes[j]).name == name implies nodes[
                j].version < nodes[n].version by {
                    assert(init[j] == nodes[j]);
                    assert(mid[name].version >= init[j].version);
                }
            }
        }
    }
}

/// A stream belongs to the peer whose name came first. Before that it belongs to none,
/// and with another name it is closed.
pub proof fn law_first_name_stays(names: Seq<Seq<char>>)
    ensures
        match peer_after_all(Seq::empty(), names) {
            Some(peer) => {
                &&& peer.len() == 0 ==> forall|i: int|
                    0 <= i < names.len() ==> (#[trigger] names[i]).len() == 0
                &&& peer.len() > 0 ==> exists|first: int|
                    0 <= first < names.len() && #[trigger] names[first] == peer && (forall|i: int|
                        0 <= i < first ==> (#[trigger] names[i]).len() == 0) && (forall|i: int|
                        first <= i < names.len() ==> #[trigger] names[i] == peer)
            },
            None => exists|first: int, other: int|
                0 <= first < other < names.len() && (#[trigger] names[first]).len() > 0 && (
                #[trigger] names[other]) != names[first],
        },
    decreases names.len(),
{
    if names.len() > 0 {
        let init = names.drop_last();
        let last = names.last();
        let n = names.len() - 1;
        assert(names[n] == last);
        law_first_name_stays(init);
        match peer_after_all(Seq::empty(), init) {
            Some(peer) => {
                if peer.len() == 0 {
                    assert forall|i: int| 0 <= i < n implies (#[trigger] names[i]).len() == 0 by {
                        assert(init[i] == names[i]);
                    }
                    assert(peer_after_all(Seq::empty(), names) == Some(last));
                    if last.len() > 0 {
                        assert(names[n] == last);
                    }
                } else {
                    let first = choose|first: int|
                        0 <= first < init.len() && #[trigger] init[first] == peer && (forall|
                            i: int,
                        |
                            0 <= i < first ==> (#[trigger] init[i]).len() == 0) && (forall|i: int|
                            first <= i < init.len() ==> #[trigger] init[i] == peer);
                    assert(names[first] == peer);
                    if last == peer {
                        assert forall|i: int| 0 <= i < first implies (#[trigger] names[i]).len()
                            == 0 by {
                            assert(init[i] == names[i]);
                        }
                        assert forall|i: int| first <= i < names.len() implies #[trigger] names[i]
                            == peer by {
                            if i < n {
                                assert(init[i] == names[i]);
                            }
                        }
                    } else {
                        assert(names[n] != names[first]);
                    }
                }
            },
            None => {
                let (first, other) = choose|first: int, other: int|
                    0 <= first < other < init.len() && (#[trigger] init[first]).len() > 0 && (
                    #[trigger] init[other]) != init[first];
                assert(names[first] == init[first]);
                assert(names[other] == init[other]);
            },
        }
    }
}

/// What a round sends to a peer are the chunks of its values, in their order, in
/// batches of at most sixty-four chunks and ten mebibytes.
pub proof fn law_round_is_sent_in_batches(round: RoundView, peer: Seq<char>, last: u64)
    ensures
        ({
            let batches = round_batches(round, peer, last);
            &&& batches.flatten() == chunks_of(values_for(round, peer), last)
            &&& forall|b: int|
                0 <= b < batches.len() ==> 1 <= (#[trigger] batches[b]).len() <= 64 && (
                batches[b].len() > 1 ==> sum_sizes(batches[b], |e: EntryView| e.data.len()) <= 10
                    * 1024 * 1024)
        }),
{
    let entries = chunks_of(values_for(round, peer), last);
    let size = |e: EntryView| e.data.len();
    assert(size =~= crate::transport::chunking::entry_size());
    law_groups_are_filled(entries, size, 64, 10 * 1024 * 1024);
}

// ---- Prefixes ----

/// Registering a prefix gives the keys that begin with it an engine of their own, where
/// they begin with no prefix that is as long, and leaves the engines of the other keys
/// as they are.
pub proof fn law_registered_prefix_takes_its_keys(
    before: MapView,
    after: MapView,
    prefix: Seq<char>,
    strategy: MergeStrategy,
    at: int,
    key: Seq<char>,
)
    requires
        registers_at(before, after, prefix, strategy, at),
        before.slots.len() == before.prefixes.len() + 1,
    ensures
        !stands_at(key, prefix, 0) ==> engine_for(after, key) == engine_for(before, key),
        stands_at(key, prefix, 0) && (forall|i: int|
            0 <= i < before.prefixes.len() && encode_utf8(#[trigger] before.prefixes[i]).len()
                >= encode_utf8(prefix).len() ==> !stands_at(key, before.prefixes[i], 0))
            ==> engine_for(after, key) == fresh_engine(strategy),
{
    law_key_goes_to_its_prefix(before.prefixes, key);
    law_key_goes_to_its_prefix(after.prefixes, key);
    let was = route(before.prefixes, key);
    let goes = route(after.prefixes, key);
    let old_ones = before.prefixes;
    let new_ones = after.prefixes;
    assert forall|i: int| 0 <= i < at implies #[trigger] old_ones[i] == new_ones[i] by {}
    assert forall|i: int| at <= i < old_ones.len() implies #[trigger] old_ones[i] == new_ones[i
        + 1] by {}
    let moved = if was < at {
        was
    } else {
        was + 1
    };
    if !stands_at(key, prefix, 0) {
        if goes < moved {
            if goes == at {
                assert(new_ones[at] == prefix);
            } else {
                let i = if goes < at {
                    goes
                } else {
                    goes - 1
                };
                assert(old_ones[i] == new_ones[goes]);
                assert(!stands_at(key, old_ones[i], 0));
            }
        }
        if moved < goes {
            assert(new_ones[moved] == old_ones[was]);
            assert(!stands_at(key, new_ones[moved], 0));
        }
        assert(goes == moved);
    } else if forall|i: int|
        0 <= i < before.prefixes.len() && encode_utf8(#[trigger] before.prefixes[i]).len()
            >= encode_utf8(prefix).len() ==> !stands_at(key, before.prefixes[i], 0) {
        if goes < at {
            assert(new_ones[goes] == old_ones[goes]);
        }
        if at < goes {
            assert(new_ones[at] == prefix);
            assert(!stands_at(key, new_ones[at], 0));
        }
    }
}

/// A counter of changes goes up by one until it can go no further.
pub proof fn law_change_counter(counter: u64)
    ensures
        counter < u64::MAX ==> bumped(counter) == counter + 1,
        counter == u64::MAX ==> bumped(counter) == counter,
{
}

// ---- Tools ----

/// A qualified name is split at its first colon. Without a colon there is none.
pub proof fn law_qualified_name_is_split_at_the_first_colon(text: Seq<char>)
    ensures
        match qualified_parts(text) {
            Some((server, tool)) => text == server + seq![':'] + tool && forall|i: int|
                0 <= i < server.len() ==> #[trigger] server[i] != ':',
            None => forall|i: int| 0 <= i < text.len() ==> #[trigger] text[i] != ':',
        },
{
    law_first_character_is_found(text, ':', 0);
    if let Some((server, tool)) = qualified_parts(text) {
        assert(text =~= server + seq![':'] + tool);
        assert forall|i: int| 0 <= i < server.len() implies #[trigger] server[i] != ':' by {
            assert(text[i] == server[i]);
        }
    }
}

/// A qualified name is the key of the server, a colon and the name of the tool.
pub proof fn law_qualified_name(server: Seq<char>, tool: Seq<char>)
    ensures
        qualified_text(server, tool) == server + seq![':'] + tool,
{
    assert(qualified_text(server, tool) =~= server + seq![':'] + tool);
}

/// Something expires once it is older than its limit, not before, and never without
/// one.
pub proof fn law_expiry(age: u128, ttl: u128)
    ensures
        expired(Some(ttl), age) <==> age > ttl,
        !expired(None, age),
{
}

/// Each hint is taken as it is. Without one, a tool is taken to write, to destroy, not
/// to be repeatable and to reach out.
pub proof fn law_each_hint_counts(hints: RmcpToolAnnotations)
    ensures
        hinted(hints).read_only <==> hints.read_only_hint == Some(true),
        hinted(hints).destructive <==> hints.destructive_hint != Some(false),
        hinted(hints).idempotent <==> hints.idempotent_hint == Some(true),
        hinted(hints).open_world <==> hints.open_world_hint != Some(false),
        hinted(no_hints()) == (ToolAnnotations {
            read_only: false,
            destructive: true,
            idempotent: false,
            open_world: true,
        }),
{
}

/// A tool that destroys needs approval unless it only reads, and no other does.
pub proof fn law_what_needs_approval(a: ToolAnnotations)
    ensures
        a.read_only ==> !needs_approval(a),
        !a.destructive ==> !needs_approval(a),
        a.destructive && !a.read_only ==> needs_approval(a),
        !needs_approval(plain_annotations()),
{
}

// ---- Bytes in flight ----

/// Bytes take up as many units of a kibibyte as are begun.
pub proof fn law_units_of_a_kibibyte(bytes: nat, units: nat)
    ensures
        units_of(bytes) == units <==> units * 1024 >= bytes && (units == 0 || (units - 1) * 1024
            < bytes),
{
}

/// A budget is its units, but at least one and at most an eighth of the largest number.
pub proof fn law_budget(budget: nat)
    ensures
        budget_units(budget) >= 1,
        budget_units(budget) <= usize::MAX / 8,
        budget == 0 ==> budget_units(budget) == 1,
        0 < budget && units_of(budget) <= usize::MAX / 8 ==> budget_units(budget) == units_of(
            budget,
        ),
        units_of(budget) > usize::MAX / 8 ==> budget_units(budget) == usize::MAX / 8,
{
}

/// A request is refused at once where its units exceed the budget or what can be
/// counted, and else its units are reserved.
pub proof fn law_reservation(units: nat, bytes: nat)
    ensures
        bytes <= units * 1024 && bytes <= 0xffff_ffff * 1024 <==> reservation(units, bytes) is Ok,
        reservation(units, bytes) matches Ok(n) ==> n * 1024 >= bytes && (n == 0 || (n - 1) * 1024
            < bytes),
        reservation(units, bytes) is Err ==> reservation(units, bytes)->Err_0
            == InflightRefusal::TooLarge,
{
}

// ---- Workers ----

/// The first healthy worker is chosen where it has no score. Else the first of the
/// healthy ones with the least score is, among those that have one.
pub proof fn law_choice_of_a_worker(workers: Seq<WorkerLoad>, first: int)
    requires
        0 <= first < workers.len(),
        workers[first].healthy,
        forall|i: int| 0 <= i < first ==> !(#[trigger] workers[i]).healthy,
    ensures
        workers[first].score is None ==> chosen(workers) == Some(first),
        workers[first].score is Some ==> chosen(workers) is Some && ({
            let best = chosen(workers)->0;
            &&& first <= best < workers.len()
            &&& workers[best].healthy
            &&& workers[best].score is Some
            &&& forall|i: int|
                0 <= i < workers.len() && (#[trigger] workers[i]).healthy
                    && workers[i].score is Some ==> workers[best].score->0 <= workers[i].score->0
                    && (i < best ==> workers[best].score->0 < workers[i].score->0)
        }),
    decreases workers.len(),
{
    let n = workers.len() - 1;
    let init = workers.drop_last();
    if first < n {
        assert(init[first] == workers[first]);
        assert forall|i: int| 0 <= i < first implies !(#[trigger] init[i]).healthy by {
            assert(init[i] == workers[i]);
        }
        law_choice_of_a_worker(init, first);
        if workers[first].score is Some {
            let was = chosen(init)->0;
            let best = chosen(workers)->0;
            assert(init[was] == workers[was]);
            assert forall|i: int|
                0 <= i < workers.len() && (#[trigger] workers[i]).healthy
                    && workers[i].score is Some implies workers[best].score->0
                <= workers[i].score->0 && (i < best ==> workers[best].score->0
                < workers[i].score->0) by {
                if i < n {
                    assert(init[i] == workers[i]);
                }
            }
        }
    } else {
        law_choice_is_healthy(init);
        if let Some(i) = chosen(init) {
            assert(init[i] == workers[i]);
        }
    }
}

/// Without a healthy worker none is chosen.
pub proof fn law_no_healthy_worker_no_choice(workers: Seq<WorkerLoad>)
    requires
        forall|i: int| 0 <= i < workers.len() ==> !(#[trigger] workers[i]).healthy,
    ensures
        chosen(workers) is None,
        !is_contested(workers),
{
    law_choice_is_healthy(workers);
}

/// There is a choice to make where at least two workers are healthy.
pub proof fn law_choice_among_at_least_two(workers: Seq<WorkerLoad>)
    ensures
        is_contested(workers) <==> workers.filter(|w: WorkerLoad| w.healthy).len() >= 2,
        chosen(workers) is Some <==> workers.filter(|w: WorkerLoad| w.healthy).len() >= 1,
    decreases workers.len(),
{
    reveal(Seq::filter);
    let f = |w: WorkerLoad| w.healthy;
    if workers.len() > 0 {
        let init = workers.drop_last();
        let n = workers.len() - 1;
        law_choice_among_at_least_two(init);
        law_choice_is_healthy(init);
        law_choice_is_healthy(workers);
        assert(workers[n] == workers.last());
        if is_contested(init) {
            let (i, j) = choose|i: int, j: int|
                0 <= i < j < init.len() && (#[trigger] init[i]).healthy && (
                #[trigger] init[j]).healthy;
            assert(workers[i] == init[i] && workers[j] == init[j]);
        }
        if is_contested(workers) {
            let (i, j) = choose|i: int, j: int|
                0 <= i < j < workers.len() && (#[trigger] workers[i]).healthy && (
                #[trigger] workers[j]).healthy;
            assert(init[i] == workers[i]);
            if j < n {
                assert(init[j] == workers[j]);
            } else if chosen(init) is None {
                assert(!init[i].healthy);
            }
        }
        if let Some(i) = chosen(init) {
            assert(init[i] == workers[i]);
            if workers[n].healthy {
                assert(workers[i].healthy && workers[n].healthy);
            }
        }
    }
}

/// The last report of a worker counts, and without a report what was known of it
/// stays.
pub proof fn law_last_report_counts<V>(
    loads: Map<Seq<char>, V>,
    reports: Seq<LoadReport<V>>,
    url: Seq<char>,
)
    ensures
        ({
            let now = loads_with(loads, reports);
            &&& forall|i: int|
                #![trigger reports[i]]
                0 <= i < reports.len() && reports[i].url@ == url && (forall|j: int|
                    i < j < reports.len() ==> (#[trigger] reports[j]).url@ != url)
                    ==> now.contains_key(url) && now[url] == reports[i].load
            &&& (forall|i: int| 0 <= i < reports.len() ==> (#[trigger] reports[i]).url@ != url) ==> {
                &&& now.contains_key(url) <==> loads.contains_key(url)
                &&& loads.contains_key(url) ==> now[url] == loads[url]
            }
        }),
    decreases reports.len(),
{
    if reports.len() > 0 {
        let init = reports.drop_last();
        let n = reports.len() - 1;
        law_last_report_counts(loads, init, url);
        assert(reports[n] == reports.last());
        let now = loads_with(loads, reports);
        assert forall|i: int|
            #![trigger reports[i]]
            0 <= i < reports.len() && reports[i].url@ == url && (forall|j: int|
                i < j < reports.len() ==> (#[trigger] reports[j]).url@
                    != url) implies now.contains_key(url) && now[url] == reports[i].load by {
            if i < n {
                assert(reports[n].url@ != url);
                assert(init[i] == reports[i]);
                assert forall|j: int| i < j < init.len() implies (#[trigger] init[j]).url@ != url by {
                    assert(reports[j] == init[j]);
                }
            }
        }
        if forall|i: int| 0 <= i < reports.len() ==> (#[trigger] reports[i]).url@ != url {
            assert forall|i: int| 0 <= i < init.len() implies (#[trigger] init[i]).url@ != url by {
                assert(reports[i] == init[i]);
            }
        }
    }
}

// ---- Models ----

/// Mistral's reasoning stands between `[THINK]` and `[/THINK]`, and a text without them
/// is the answer. A stream begins outside reasoning and passes reasoning on.
pub proof fn law_mistral_reasoning(reasoning: Seq<char>, answer: Seq<char>)
    requires
        first_behind(reasoning, "[/THINK]"@, answer),
        holds_none(reasoning + "[/THINK]"@ + answer, "[THINK]"@),
        holds_none(answer, "[THINK]"@),
        holds_none(answer, "[/THINK]"@),
    ensures
        told_apart(
            mistral_config(),
            false,
            "[THINK]"@ + (reasoning + "[/THINK]"@ + answer),
        ) == (Split { normal: answer, reasoning }),
        told_apart(mistral_config(), false, answer) == (Split {
            normal: answer,
            reasoning: Seq::empty(),
        }),
        !fresh(mistral_config()).in_reasoning,
        mistral_config().stream_reasoning,
        mistral_config().max_buffer_size == 65_536,
{
    reveal_strlit("[THINK]");
    law_reasoning_stands_between_the_markers(mistral_config(), reasoning, answer, false);
    law_unfinished_reasoning_is_all_reasoning(mistral_config(), answer, false);
}

/// The reasoning of this model stands before `</think>`, with `<think>` in front or
/// without. A stream begins in reasoning and passes it on.
pub proof fn law_step3p5_reasoning(reasoning: Seq<char>, answer: Seq<char>)
    requires
        first_behind(reasoning, "</think>"@, answer),
        holds_none(reasoning + "</think>"@ + answer, "<think>"@),
    ensures
        told_apart(
            step3p5_config(),
            true,
            "<think>"@ + (reasoning + "</think>"@ + answer),
        ) == (Split { normal: answer, reasoning }),
        told_apart(step3p5_config(), true, reasoning + "</think>"@ + answer) == (Split {
            normal: answer,
            reasoning,
        }),
        fresh(step3p5_config()).in_reasoning,
        step3p5_config().stream_reasoning,
        step3p5_config().max_buffer_size == 65_536,
{
    reveal_strlit("<think>");
    law_reasoning_stands_between_the_markers(step3p5_config(), reasoning, answer, true);
}

} // verus!
