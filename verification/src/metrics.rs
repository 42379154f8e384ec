//! The metrics of a node in the text exposition format.
use vstd::prelude::*;

use crate::scan::characters;
use crate::scan::received_text;
use crate::scan::text_from_utf8_lossy;
use crate::text::decimal;

verus! {

/// What the cache counts.
#[derive(Debug, PartialEq, Eq)]
pub struct CacheStats {
    pub used_bytes: usize,
    pub max_memory_bytes: usize,
    pub entries: usize,
    pub hits: u64,
    pub misses: u64,
    pub sets: u64,
    pub deletes: u64,
    pub evictions: u64,
    pub expirations: u64,
    pub incrs: u64,
    pub cas_sets: u64,
    pub cas_deletes: u64,
    pub namespaces: Vec<NamespaceStats>,
}

/// What the cache counts of one namespace.
#[derive(Debug, PartialEq, Eq)]
pub struct NamespaceStats {
    pub namespace: Vec<u8>,
    pub entries: usize,
    pub used_bytes: usize,
    pub budget_bytes: Option<usize>,
}

/// The digits of a number as text.
pub open spec fn decimal_text(n: nat) -> Seq<char>
    decreases n,
{
    if n < 10 {
        seq![(48 + n) as char]
    } else {
        decimal_text(n / 10).push((48 + n % 10) as char)
    }
}

/// Appends the digits of a number.
pub fn push_number(out: &mut String, n: u128)
    ensures
        final(out)@ == old(out)@ + decimal_text(n as nat),
    decreases n,
{
    let ghost before = out@;
    if n >= 10 {
        push_number(out, n / 10);
    }
    let digit: u8 = 48 + (n % 10) as u8;
    out.push(digit as char);
    assert(out@ =~= before + decimal_text(n as nat));
}

/// A label's text: the backslash, the quote and the line feed are escaped.
pub open spec fn escaped(text: Seq<char>) -> Seq<char>
    decreases text.len(),
{
    if text.len() == 0 {
        Seq::empty()
    } else {
        escaped(text.drop_last()) + escaped_character(text.last())
    }
}

/// A character as it stands in a label.
pub open spec fn escaped_character(character: char) -> Seq<char> {
    if character == '\\' {
        seq!['\\', '\\']
    } else if character == '"' {
        seq!['\\', '"']
    } else if character == '\n' {
        seq!['\\', 'n']
    } else {
        seq![character]
    }
}

/// Makes a label of bytes; those that are no text are replaced first.
pub fn metrics_label_escape(raw: &[u8]) -> (label: String)
    ensures
        label@ == escaped(received_text(raw@)),
{
    let text = text_from_utf8_lossy(raw);
    escape(text.as_str())
}

/// Escapes a text for a label.
pub fn escape(text: &str) -> (label: String)
    ensures
        label@ == escaped(text@),
{
    let found = characters(text);
    let mut label = String::new();
    let mut index: usize = 0;
    while index < found.len()
        invariant
            index <= found.len(),
            label@ == escaped(found@.take(index as int)),
        decreases found.len() - index,
    {
        let character = found[index];
        let ghost before = label@;
        if character == '\\' {
            label.push('\\');
            label.push('\\');
        } else if character == '"' {
            label.push('\\');
            label.push('"');
        } else if character == '\n' {
            label.push('\\');
            label.push('n');
        } else {
            label.push(character);
        }
        assert(label@ =~= before + escaped_character(character));
        assert(found@.take(index + 1).drop_last() =~= found@.take(index as int));
        index += 1;
    }
    assert(found@.take(found@.len() as int) =~= found@);
    label
}

/// A label stays on its line.
pub proof fn law_label_holds_no_line_feed(text: Seq<char>, place: int)
    requires
        0 <= place < escaped(text).len(),
    ensures
        escaped(text)[place] != '\n',
    decreases text.len(),
{
    if text.len() > 0 {
        let before = escaped(text.drop_last());
        if place < before.len() {
            law_label_holds_no_line_feed(text.drop_last(), place);
        }
    }
}

/// Two texts have the same label only if they are the same.
pub proof fn law_labels_are_distinct(a: Seq<char>, b: Seq<char>)
    requires
        escaped(a) == escaped(b),
    ensures
        a == b,
    decreases a.len(),
{
    if a.len() == 0 {
        if b.len() > 0 {
            assert(escaped(b).len() > 0);
        }
        assert(a =~= b);
    } else if b.len() == 0 {
        assert(escaped(a).len() > 0);
    } else {
        let x = escaped_character(a.last());
        let y = escaped_character(b.last());
        let all = escaped(a);
        lemma_backslashes(a.drop_last());
        lemma_backslashes(b.drop_last());
        assert(all == escaped(a.drop_last()) + x);
        assert(all == escaped(b.drop_last()) + y);
        assert(all[all.len() - 1] == x[x.len() - 1]);
        assert(all[all.len() - 1] == y[y.len() - 1]);
        if x.len() != y.len() {
            if x.len() == 2 {
                lemma_unescaped_end(a, b);
            } else {
                lemma_unescaped_end(b, a);
            }
        }
        assert(escaped(a.drop_last()) =~= all.take(all.len() - x.len()));
        assert(escaped(b.drop_last()) =~= all.take(all.len() - y.len()));
        law_labels_are_distinct(a.drop_last(), b.drop_last());
        assert(a =~= a.drop_last().push(a.last()));
        assert(b =~= b.drop_last().push(b.last()));
    }
}

/// The number of backslashes at the end of a text.
spec fn backslashes(text: Seq<char>) -> nat
    decreases text.len(),
{
    if text.len() > 0 && text.last() == '\\' {
        1 + backslashes(text.drop_last())
    } else {
        0
    }
}

/// An escaped text ends with an even number of backslashes.
proof fn lemma_backslashes(text: Seq<char>)
    ensures
        backslashes(escaped(text)) % 2 == 0,
    decreases text.len(),
{
    if text.len() > 0 {
        let before = escaped(text.drop_last());
        let last = text.last();
        lemma_backslashes(text.drop_last());
        let all = escaped(text);
        if last == '\\' {
            assert(all.drop_last() =~= before.push('\\'));
            assert(all.drop_last().drop_last() =~= before);
            assert(backslashes(all) == 2 + backslashes(before)) by {
                reveal_with_fuel(backslashes, 3);
            }
        } else {
            assert(all.last() != '\\');
        }
    }
}

/// A text that ends in an escaped character has no other reading.
proof fn lemma_unescaped_end(a: Seq<char>, b: Seq<char>)
    requires
        a.len() > 0,
        b.len() > 0,
        escaped_character(a.last()).len() == 2,
        escaped_character(b.last()).len() == 1,
    ensures
        escaped(a) != escaped(b),
{
    if escaped(a) == escaped(b) {
        let all = escaped(a);
        lemma_backslashes(a.drop_last());
        lemma_backslashes(b.drop_last());
        assert(all.drop_last() =~= escaped(a.drop_last()).push('\\'));
        assert(all.drop_last() =~= escaped(b.drop_last()));
        assert(escaped(a.drop_last()).push('\\').drop_last() =~= escaped(a.drop_last()));
        assert(backslashes(all.drop_last()) == 1 + backslashes(escaped(a.drop_last())));
    }
}

/// A metric with its description.
pub open spec fn metric(name: Seq<char>, kind: Seq<char>, help: Seq<char>, value: Seq<char>) -> Seq<
    char,
> {
    "# HELP "@ + name + " "@ + help + "\n# TYPE "@ + name + " "@ + kind + "\n"@ + value
}

fn push_metric(out: &mut String, name: &str, kind: &str, help: &str, value: &str)
    ensures
        final(out)@ == old(out)@ + metric(name@, kind@, help@, value@),
{
    let ghost before = out@;
    out.push_str("# HELP ");
    out.push_str(name);
    out.push_str(" ");
    out.push_str(help);
    out.push_str("\n# TYPE ");
    out.push_str(name);
    out.push_str(" ");
    out.push_str(kind);
    out.push_str("\n");
    out.push_str(value);
    assert(out@ =~= before + metric(name@, kind@, help@, value@));
}

/// A metric of one number.
pub open spec fn counted(name: Seq<char>, kind: Seq<char>, help: Seq<char>, n: nat) -> Seq<char> {
    metric(name, kind, help, name + " "@ + decimal_text(n) + "\n"@)
}

fn push_counted(out: &mut String, name: &str, kind: &str, help: &str, n: u128)
    ensures
        final(out)@ == old(out)@ + counted(name@, kind@, help@, n as nat),
{
    let mut value = String::new();
    value.push_str(name);
    value.push_str(" ");
    push_number(&mut value, n);
    value.push_str("\n");
    assert(value@ =~= name@ + " "@ + decimal_text(n as nat) + "\n"@);
    push_metric(out, name, kind, help, value.as_str());
}

/// The metrics of what the cache holds.
pub open spec fn memory_metrics(stats: CacheStats) -> Seq<char> {
    counted(
        "nanocached_node_memory_used_bytes"@,
        "gauge"@,
        "Bytes of cache memory in use (keys + values + per-entry overhead)."@,
        stats.used_bytes as nat,
    )
        + counted(
        "nanocached_node_memory_max_bytes"@,
        "gauge"@,
        "The --max-memory bound."@,
        stats.max_memory_bytes as nat,
    )
        + counted(
        "nanocached_node_entries"@,
        "gauge"@,
        "Live entries across every namespace."@,
        stats.entries as nat,
    )
}

fn push_memory_metrics(out: &mut String, stats: &CacheStats)
    ensures
        final(out)@ == old(out)@ + memory_metrics(*stats),
{
    let ghost before = out@;
    push_counted(
        out,
        "nanocached_node_memory_used_bytes",
        "gauge",
        "Bytes of cache memory in use (keys + values + per-entry overhead).",
        stats.used_bytes as u128,
    );
    push_counted(
        out,
        "nanocached_node_memory_max_bytes",
        "gauge",
        "The --max-memory bound.",
        stats.max_memory_bytes as u128,
    );
    push_counted(
        out,
        "nanocached_node_entries",
        "gauge",
        "Live entries across every namespace.",
        stats.entries as u128,
    );
    assert(out@ =~= before + memory_metrics(*stats));
}

/// The metrics of the connections.
pub open spec fn connection_metrics(connections: usize, max_connections: usize) -> Seq<char> {
    counted(
        "nanocached_node_connections"@,
        "gauge"@,
        "Client connections currently held (of the connection limit)."@,
        connections as nat,
    )
        + counted(
        "nanocached_node_connections_max"@,
        "gauge"@,
        "The --max-connections bound (issue #126) — the proxy exports the same pair, so utilization dashboards can treat both tiers alike."@,
        max_connections as nat,
    )
}

fn push_connection_metrics(out: &mut String, connections: usize, max_connections: usize)
    ensures
        final(out)@ == old(out)@ + connection_metrics(connections, max_connections),
{
    let ghost before = out@;
    push_counted(
        out,
        "nanocached_node_connections",
        "gauge",
        "Client connections currently held (of the connection limit).",
        connections as u128,
    );
    push_counted(
        out,
        "nanocached_node_connections_max",
        "gauge",
        "The --max-connections bound (issue #126) — the proxy exports the same pair, so utilization dashboards can treat both tiers alike.",
        max_connections as u128,
    );
    assert(out@ =~= before + connection_metrics(connections, max_connections));
}

/// The metrics of reads.
pub open spec fn read_metrics(stats: CacheStats) -> Seq<char> {
    counted(
        "nanocached_node_hits_total"@,
        "counter"@,
        "GET requests answered with a value."@,
        stats.hits as nat,
    )
        + counted(
        "nanocached_node_misses_total"@,
        "counter"@,
        "GET requests answered not-found (expired included)."@,
        stats.misses as nat,
    )
}

fn push_read_metrics(out: &mut String, stats: &CacheStats)
    ensures
        final(out)@ == old(out)@ + read_metrics(*stats),
{
    let ghost before = out@;
    push_counted(
        out,
        "nanocached_node_hits_total",
        "counter",
        "GET requests answered with a value.",
        stats.hits as u128,
    );
    push_counted(
        out,
        "nanocached_node_misses_total",
        "counter",
        "GET requests answered not-found (expired included).",
        stats.misses as u128,
    );
    assert(out@ =~= before + read_metrics(*stats));
}

/// The metrics of what was written and removed.
pub open spec fn write_metrics(stats: CacheStats) -> Seq<char> {
    counted(
        "nanocached_node_sets_total"@,
        "counter"@,
        "Stored writes."@,
        stats.sets as nat,
    )
        + counted(
        "nanocached_node_deletes_total"@,
        "counter"@,
        "Deletes that removed a live entry."@,
        stats.deletes as nat,
    )
        + counted(
        "nanocached_node_evictions_total"@,
        "counter"@,
        "Entries evicted by the memory bound."@,
        stats.evictions as nat,
    )
        + counted(
        "nanocached_node_expirations_total"@,
        "counter"@,
        "Entries removed because their TTL passed."@,
        stats.expirations as nat,
    )
}

fn push_write_metrics(out: &mut String, stats: &CacheStats)
    ensures
        final(out)@ == old(out)@ + write_metrics(*stats),
{
    let ghost before = out@;
    push_counted(
        out,
        "nanocached_node_sets_total",
        "counter",
        "Stored writes.",
        stats.sets as u128,
    );
    push_counted(
        out,
        "nanocached_node_deletes_total",
        "counter",
        "Deletes that removed a live entry.",
        stats.deletes as u128,
    );
    push_counted(
        out,
        "nanocached_node_evictions_total",
        "counter",
        "Entries evicted by the memory bound.",
        stats.evictions as u128,
    );
    push_counted(
        out,
        "nanocached_node_expirations_total",
        "counter",
        "Entries removed because their TTL passed.",
        stats.expirations as u128,
    );
    assert(out@ =~= before + write_metrics(*stats));
}

/// The metrics of counters and conditional writes.
pub open spec fn conditional_metrics(stats: CacheStats) -> Seq<char> {
    counted(
        "nanocached_node_incrs_total"@,
        "counter"@,
        "Successful INCR operations (issue #129) — a stored value that wasn't INCR's counter grammar, or an overflowing delta, isn't counted here."@,
        stats.incrs as nat,
    )
        + counted(
        "nanocached_node_cas_sets_total"@,
        "counter"@,
        "Successful k (compare-and-set) writes (issue #141) — a mismatched condition isn't counted here."@,
        stats.cas_sets as nat,
    )
        + counted(
        "nanocached_node_cas_deletes_total"@,
        "counter"@,
        "Successful x (compare-and-delete) removals (issue #141) — a mismatched condition or missing key isn't counted here."@,
        stats.cas_deletes as nat,
    )
}

fn push_conditional_metrics(out: &mut String, stats: &CacheStats)
    ensures
        final(out)@ == old(out)@ + conditional_metrics(*stats),
{
    let ghost before = out@;
    push_counted(
        out,
        "nanocached_node_incrs_total",
        "counter",
        "Successful INCR operations (issue #129) — a stored value that wasn't INCR's counter grammar, or an overflowing delta, isn't counted here.",
        stats.incrs as u128,
    );
    push_counted(
        out,
        "nanocached_node_cas_sets_total",
        "counter",
        "Successful k (compare-and-set) writes (issue #141) — a mismatched condition isn't counted here.",
        stats.cas_sets as u128,
    );
    push_counted(
        out,
        "nanocached_node_cas_deletes_total",
        "counter",
        "Successful x (compare-and-delete) removals (issue #141) — a mismatched condition or missing key isn't counted here.",
        stats.cas_deletes as u128,
    );
    assert(out@ =~= before + conditional_metrics(*stats));
}

/// The line of a metric for one namespace.
pub open spec fn namespace_line(name: Seq<char>, namespace: Seq<u8>, n: nat) -> Seq<char> {
    name + "{namespace=\""@ + escaped(received_text(namespace)) + "\"} "@ + decimal_text(n)
        + "\n"@
}

fn push_namespace_line(out: &mut String, name: &str, label: &str, n: usize)
    ensures
        final(out)@ == old(out)@ + (name@ + "{namespace=\""@ + label@ + "\"} "@ + decimal_text(
            n as nat,
        ) + "\n"@),
{
    let ghost before = out@;
    out.push_str(name);
    out.push_str("{namespace=\"");
    out.push_str(label);
    out.push_str("\"} ");
    push_number(out, n as u128);
    out.push_str("\n");
    assert(out@ =~= before + (name@ + "{namespace=\""@ + label@ + "\"} "@ + decimal_text(n as nat)
        + "\n"@));
}

/// The lines with the entries of each namespace.
pub open spec fn entry_lines(namespaces: Seq<NamespaceStats>) -> Seq<char>
    decreases namespaces.len(),
{
    if namespaces.len() == 0 {
        Seq::empty()
    } else {
        let last = namespaces.last();
        entry_lines(namespaces.drop_last()) + namespace_line(
            "nanocached_node_namespace_entries"@,
            last.namespace@,
            last.entries as nat,
        )
    }
}

/// The lines with the bytes of each namespace.
pub open spec fn byte_lines(namespaces: Seq<NamespaceStats>) -> Seq<char>
    decreases namespaces.len(),
{
    if namespaces.len() == 0 {
        Seq::empty()
    } else {
        let last = namespaces.last();
        byte_lines(namespaces.drop_last()) + namespace_line(
            "nanocached_node_namespace_used_bytes"@,
            last.namespace@,
            last.used_bytes as nat,
        )
    }
}

/// The lines with the budget of each namespace that has one.
pub open spec fn budget_lines(namespaces: Seq<NamespaceStats>) -> Seq<char>
    decreases namespaces.len(),
{
    if namespaces.len() == 0 {
        Seq::empty()
    } else {
        let last = namespaces.last();
        budget_lines(namespaces.drop_last()) + match last.budget_bytes {
            Some(budget) => namespace_line(
                "nanocached_node_namespace_budget_bytes"@,
                last.namespace@,
                budget as nat,
            ),
            None => Seq::empty(),
        }
    }
}

/// Whether a namespace has a budget.
pub open spec fn has_budget(namespaces: Seq<NamespaceStats>) -> bool {
    exists|i: int| 0 <= i < namespaces.len() && (#[trigger] namespaces[i]).budget_bytes is Some
}

/// The metrics of the namespaces.
pub open spec fn namespace_metrics(namespaces: Seq<NamespaceStats>) -> Seq<char> {
    let live = if namespaces.len() > 0 {
        metric(
            "nanocached_node_namespace_entries"@,
            "gauge"@,
            "Live entries per namespace (empty label = the default namespace)."@,
            entry_lines(namespaces),
        ) + metric(
            "nanocached_node_namespace_used_bytes"@,
            "gauge"@,
            "Bytes per namespace."@,
            byte_lines(namespaces),
        )
    } else {
        Seq::empty()
    };
    let budgets = if has_budget(namespaces) {
        metric(
            "nanocached_node_namespace_budget_bytes"@,
            "gauge"@,
            "The --namespace-budget cap, for namespaces that have one (issue #127)."@,
            budget_lines(namespaces),
        )
    } else {
        Seq::empty()
    };
    live + budgets
}

fn push_namespace_metrics(out: &mut String, namespaces: &Vec<NamespaceStats>)
    ensures
        final(out)@ == old(out)@ + namespace_metrics(namespaces@),
{
    let mut entries = String::new();
    let mut bytes = String::new();
    let mut budgets = String::new();
    let mut budgeted = false;
    let mut index: usize = 0;
    while index < namespaces.len()
        invariant
            index <= namespaces.len(),
            entries@ == entry_lines(namespaces@.take(index as int)),
            bytes@ == byte_lines(namespaces@.take(index as int)),
            budgets@ == budget_lines(namespaces@.take(index as int)),
            budgeted == has_budget(namespaces@.take(index as int)),
        decreases namespaces.len() - index,
    {
        let namespace = &namespaces[index];
        let label = metrics_label_escape(namespace.namespace.as_slice());
        let ghost before = namespaces@.take(index as int);
        let ghost after = namespaces@.take(index + 1);
        assert(after.drop_last() =~= before);
        assert(after.last() == *namespace);
        push_namespace_line(
            &mut entries,
            "nanocached_node_namespace_entries",
            label.as_str(),
            namespace.entries,
        );
        push_namespace_line(
            &mut bytes,
            "nanocached_node_namespace_used_bytes",
            label.as_str(),
            namespace.used_bytes,
        );
        if let Some(budget) = namespace.budget_bytes {
            push_namespace_line(
                &mut budgets,
                "nanocached_node_namespace_budget_bytes",
                label.as_str(),
                budget,
            );
            budgeted = true;
            assert(after[index as int].budget_bytes is Some);
        } else {
            assert(budgets@ =~= budgets@ + Seq::<char>::empty());
        }
        proof {
            if has_budget(before) {
                let i = choose|i: int|
                    0 <= i < before.len() && (#[trigger] before[i]).budget_bytes is Some;
                assert(after[i].budget_bytes is Some);
            }
            if has_budget(after) && namespace.budget_bytes is None {
                let i = choose|i: int|
                    0 <= i < after.len() && (#[trigger] after[i]).budget_bytes is Some;
                assert(before[i].budget_bytes is Some);
            }
        }
        index += 1;
    }
    assert(namespaces@.take(namespaces@.len() as int) =~= namespaces@);
    let ghost before = out@;
    if namespaces.len() > 0 {
        push_metric(
            out,
            "nanocached_node_namespace_entries",
            "gauge",
            "Live entries per namespace (empty label = the default namespace).",
            entries.as_str(),
        );
        push_metric(
            out,
            "nanocached_node_namespace_used_bytes",
            "gauge",
            "Bytes per namespace.",
            bytes.as_str(),
        );
    }
    if budgeted {
        push_metric(
            out,
            "nanocached_node_namespace_budget_bytes",
            "gauge",
            "The --namespace-budget cap, for namespaces that have one (issue #127).",
            budgets.as_str(),
        );
    }
    assert(out@ =~= before + namespace_metrics(namespaces@));
}

/// All metrics of a node.
pub open spec fn node_metrics(stats: CacheStats, connections: usize, max_connections: usize) -> Seq<
    char,
> {
    memory_metrics(stats) + connection_metrics(connections, max_connections) + read_metrics(stats)
        + write_metrics(stats) + conditional_metrics(stats) + namespace_metrics(stats.namespaces@)
}

/// Writes out all metrics of a node.
pub fn render_node_metrics(stats: &CacheStats, connections: usize, max_connections: usize) -> (text:
    String)
    ensures
        text@ == node_metrics(*stats, connections, max_connections),
{
    let mut out = String::new();
    push_memory_metrics(&mut out, stats);
    push_connection_metrics(&mut out, connections, max_connections);
    push_read_metrics(&mut out, stats);
    push_write_metrics(&mut out, stats);
    push_conditional_metrics(&mut out, stats);
    push_namespace_metrics(&mut out, &stats.namespaces);
    assert(out@ =~= node_metrics(*stats, connections, max_connections));
    out
}

/// Whether a text holds a part.
pub open spec fn shows(text: Seq<char>, part: Seq<char>) -> bool {
    exists|i: int|
        0 <= i <= text.len() - part.len() && #[trigger] text.subrange(i, i + part.len()) == part
}

/// A metric's value as a reader finds it: behind the kind, on a line of its own,
/// the name and the number.
pub open spec fn sample(name: Seq<char>, kind: Seq<char>, n: nat) -> Seq<char> {
    kind + "\n"@ + (name + " "@ + decimal_text(n) + "\n"@)
}

proof fn lemma_shows_add(a: Seq<char>, b: Seq<char>, part: Seq<char>)
    ensures
        shows(a, part) || shows(b, part) ==> shows(a + b, part),
{
    let text = a + b;
    if shows(a, part) {
        let i = choose|i: int|
            0 <= i <= a.len() - part.len() && #[trigger] a.subrange(i, i + part.len()) == part;
        assert(text.subrange(i, i + part.len()) =~= a.subrange(i, i + part.len()));
    }
    if shows(b, part) {
        let i = choose|i: int|
            0 <= i <= b.len() - part.len() && #[trigger] b.subrange(i, i + part.len()) == part;
        let j = a.len() + i;
        assert(text.subrange(j, j + part.len()) =~= b.subrange(i, i + part.len()));
    }
}

proof fn lemma_shows_itself(before: Seq<char>, part: Seq<char>)
    ensures
        shows(before + part, part),
{
    let i = before.len() as int;
    assert((before + part).subrange(i, i + part.len()) =~= part);
}

proof fn lemma_counted_shown(name: Seq<char>, kind: Seq<char>, help: Seq<char>, n: nat)
    ensures
        shows(counted(name, kind, help, n), sample(name, kind, n)),
{
    let before = "# HELP "@ + name + " "@ + help + "\n# TYPE "@ + name + " "@;
    let line = name + " "@ + decimal_text(n) + "\n"@;
    lemma_shows_itself(before, sample(name, kind, n));
    lemma_add_associates(before, kind, "\n"@);
    lemma_add_associates(before, kind + "\n"@, line);
}

proof fn lemma_add_associates(a: Seq<char>, b: Seq<char>, c: Seq<char>)
    ensures
        a + b + c == a + (b + c),
{
    assert(a + b + c =~= a + (b + c));
}

proof fn lemma_memory_metrics_shown(stats: CacheStats)
    ensures
        shows(memory_metrics(stats), sample("nanocached_node_memory_used_bytes"@, "gauge"@, stats.used_bytes as nat)),
        shows(memory_metrics(stats), sample("nanocached_node_memory_max_bytes"@, "gauge"@, stats.max_memory_bytes as nat)),
        shows(memory_metrics(stats), sample("nanocached_node_entries"@, "gauge"@, stats.entries as nat)),
{
    let a = counted(
        "nanocached_node_memory_used_bytes"@,
        "gauge"@,
        "Bytes of cache memory in use (keys + values + per-entry overhead)."@,
        stats.used_bytes as nat,
    );
    lemma_counted_shown(
        "nanocached_node_memory_used_bytes"@,
        "gauge"@,
        "Bytes of cache memory in use (keys + values + per-entry overhead)."@,
        stats.used_bytes as nat,
    );
    let b = counted(
        "nanocached_node_memory_max_bytes"@,
        "gauge"@,
        "The --max-memory bound."@,
        stats.max_memory_bytes as nat,
    );
    lemma_counted_shown(
        "nanocached_node_memory_max_bytes"@,
        "gauge"@,
        "The --max-memory bound."@,
        stats.max_memory_bytes as nat,
    );
    let c = counted(
        "nanocached_node_entries"@,
        "gauge"@,
        "Live entries across every namespace."@,
        stats.entries as nat,
    );
    lemma_counted_shown(
        "nanocached_node_entries"@,
        "gauge"@,
        "Live entries across every namespace."@,
        stats.entries as nat,
    );
    lemma_shows_add(a, b, sample("nanocached_node_memory_used_bytes"@, "gauge"@, stats.used_bytes as nat));
    lemma_shows_add(a + b, c, sample("nanocached_node_memory_used_bytes"@, "gauge"@, stats.used_bytes as nat));
    lemma_shows_add(a, b, sample("nanocached_node_memory_max_bytes"@, "gauge"@, stats.max_memory_bytes as nat));
    lemma_shows_add(a + b, c, sample("nanocached_node_memory_max_bytes"@, "gauge"@, stats.max_memory_bytes as nat));
    lemma_shows_add(a, b, sample("nanocached_node_entries"@, "gauge"@, stats.entries as nat));
    lemma_shows_add(a + b, c, sample("nanocached_node_entries"@, "gauge"@, stats.entries as nat));
}

proof fn lemma_connection_metrics_shown(connections: usize, max_connections: usize)
    ensures
        shows(connection_metrics(connections, max_connections), sample("nanocached_node_connections"@, "gauge"@, connections as nat)),
        shows(connection_metrics(connections, max_connections), sample("nanocached_node_connections_max"@, "gauge"@, max_connections as nat)),
{
    let a = counted(
        "nanocached_node_connections"@,
        "gauge"@,
        "Client connections currently held (of the connection limit)."@,
        connections as nat,
    );
    lemma_counted_shown(
        "nanocached_node_connections"@,
        "gauge"@,
        "Client connections currently held (of the connection limit)."@,
        connections as nat,
    );
    let b = counted(
        "nanocached_node_connections_max"@,
        "gauge"@,
        "The --max-connections bound (issue #126) — the proxy exports the same pair, so utilization dashboards can treat both tiers alike."@,
        max_connections as nat,
    );
    lemma_counted_shown(
        "nanocached_node_connections_max"@,
        "gauge"@,
        "The --max-connections bound (issue #126) — the proxy exports the same pair, so utilization dashboards can treat both tiers alike."@,
        max_connections as nat,
    );
    lemma_shows_add(a, b, sample("nanocached_node_connections"@, "gauge"@, connections as nat));
    lemma_shows_add(a, b, sample("nanocached_node_connections_max"@, "gauge"@, max_connections as nat));
}

proof fn lemma_read_metrics_shown(stats: CacheStats)
    ensures
        shows(read_metrics(stats), sample("nanocached_node_hits_total"@, "counter"@, stats.hits as nat)),
        shows(read_metrics(stats), sample("nanocached_node_misses_total"@, "counter"@, stats.misses as nat)),
{
    let a = counted(
        "nanocached_node_hits_total"@,
        "counter"@,
        "GET requests answered with a value."@,
        stats.hits as nat,
    );
    lemma_counted_shown(
        "nanocached_node_hits_total"@,
        "counter"@,
        "GET requests answered with a value."@,
        stats.hits as nat,
    );
    let b = counted(
        "nanocached_node_misses_total"@,
        "counter"@,
        "GET requests answered not-found (expired included)."@,
        stats.misses as nat,
    );
    lemma_counted_shown(
        "nanocached_node_misses_total"@,
        "counter"@,
        "GET requests answered not-found (expired included)."@,
        stats.misses as nat,
    );
    lemma_shows_add(a, b, sample("nanocached_node_hits_total"@, "counter"@, stats.hits as nat));
    lemma_shows_add(a, b, sample("nanocached_node_misses_total"@, "counter"@, stats.misses as nat));
}

proof fn lemma_write_metrics_shown(stats: CacheStats)
    ensures
        shows(write_metrics(stats), sample("nanocached_node_sets_total"@, "counter"@, stats.sets as nat)),
        shows(write_metrics(stats), sample("nanocached_node_deletes_total"@, "counter"@, stats.deletes as nat)),
        shows(write_metrics(stats), sample("nanocached_node_evictions_total"@, "counter"@, stats.evictions as nat)),
        shows(write_metrics(stats), sample("nanocached_node_expirations_total"@, "counter"@, stats.expirations as nat)),
{
    let a = counted(
        "nanocached_node_sets_total"@,
        "counter"@,
        "Stored writes."@,
        stats.sets as nat,
    );
    lemma_counted_shown(
        "nanocached_node_sets_total"@,
        "counter"@,
        "Stored writes."@,
        stats.sets as nat,
    );
    let b = counted(
        "nanocached_node_deletes_total"@,
        "counter"@,
        "Deletes that removed a live entry."@,
        stats.deletes as nat,
    );
    lemma_counted_shown(
        "nanocached_node_deletes_total"@,
        "counter"@,
        "Deletes that removed a live entry."@,
        stats.deletes as nat,
    );
    let c = counted(
        "nanocached_node_evictions_total"@,
        "counter"@,
        "Entries evicted by the memory bound."@,
        stats.evictions as nat,
    );
    lemma_counted_shown(
        "nanocached_node_evictions_total"@,
        "counter"@,
        "Entries evicted by the memory bound."@,
        stats.evictions as nat,
    );
    let d = counted(
        "nanocached_node_expirations_total"@,
        "counter"@,
        "Entries removed because their TTL passed."@,
        stats.expirations as nat,
    );
    lemma_counted_shown(
        "nanocached_node_expirations_total"@,
        "counter"@,
        "Entries removed because their TTL passed."@,
        stats.expirations as nat,
    );
    lemma_shows_add(a, b, sample("nanocached_node_sets_total"@, "counter"@, stats.sets as nat));
    lemma_shows_add(a + b, c, sample("nanocached_node_sets_total"@, "counter"@, stats.sets as nat));
    lemma_shows_add(a + b + c, d, sample("nanocached_node_sets_total"@, "counter"@, stats.sets as nat));
    lemma_shows_add(a, b, sample("nanocached_node_deletes_total"@, "counter"@, stats.deletes as nat));
    lemma_shows_add(a + b, c, sample("nanocached_node_deletes_total"@, "counter"@, stats.deletes as nat));
    lemma_shows_add(a + b + c, d, sample("nanocached_node_deletes_total"@, "counter"@, stats.deletes as nat));
    lemma_shows_add(a, b, sample("nanocached_node_evictions_total"@, "counter"@, stats.evictions as nat));
    lemma_shows_add(a + b, c, sample("nanocached_node_evictions_total"@, "counter"@, stats.evictions as nat));
    lemma_shows_add(a + b + c, d, sample("nanocached_node_evictions_total"@, "counter"@, stats.evictions as nat));
    lemma_shows_add(a, b, sample("nanocached_node_expirations_total"@, "counter"@, stats.expirations as nat));
    lemma_shows_add(a + b, c, sample("nanocached_node_expirations_total"@, "counter"@, stats.expirations as nat));
    lemma_shows_add(a + b + c, d, sample("nanocached_node_expirations_total"@, "counter"@, stats.expirations as nat));
}

proof fn lemma_conditional_metrics_shown(stats: CacheStats)
    ensures
        shows(conditional_metrics(stats), sample("nanocached_node_incrs_total"@, "counter"@, stats.incrs as nat)),
        shows(conditional_metrics(stats), sample("nanocached_node_cas_sets_total"@, "counter"@, stats.cas_sets as nat)),
        shows(conditional_metrics(stats), sample("nanocached_node_cas_deletes_total"@, "counter"@, stats.cas_deletes as nat)),
{
    let a = counted(
        "nanocached_node_incrs_total"@,
        "counter"@,
        "Successful INCR operations (issue #129) — a stored value that wasn't INCR's counter grammar, or an overflowing delta, isn't counted here."@,
        stats.incrs as nat,
    );
    lemma_counted_shown(
        "nanocached_node_incrs_total"@,
        "counter"@,
        "Successful INCR operations (issue #129) — a stored value that wasn't INCR's counter grammar, or an overflowing delta, isn't counted here."@,
        stats.incrs as nat,
    );
    let b = counted(
        "nanocached_node_cas_sets_total"@,
        "counter"@,
        "Successful k (compare-and-set) writes (issue #141) — a mismatched condition isn't counted here."@,
        stats.cas_sets as nat,
    );
    lemma_counted_shown(
        "nanocached_node_cas_sets_total"@,
        "counter"@,
        "Successful k (compare-and-set) writes (issue #141) — a mismatched condition isn't counted here."@,
        stats.cas_sets as nat,
    );
    let c = counted(
        "nanocached_node_cas_deletes_total"@,
        "counter"@,
        "Successful x (compare-and-delete) removals (issue #141) — a mismatched condition or missing key isn't counted here."@,
        stats.cas_deletes as nat,
    );
    lemma_counted_shown(
        "nanocached_node_cas_deletes_total"@,
        "counter"@,
        "Successful x (compare-and-delete) removals (issue #141) — a mismatched condition or missing key isn't counted here."@,
        stats.cas_deletes as nat,
    );
    lemma_shows_add(a, b, sample("nanocached_node_incrs_total"@, "counter"@, stats.incrs as nat));
    lemma_shows_add(a + b, c, sample("nanocached_node_incrs_total"@, "counter"@, stats.incrs as nat));
    lemma_shows_add(a, b, sample("nanocached_node_cas_sets_total"@, "counter"@, stats.cas_sets as nat));
    lemma_shows_add(a + b, c, sample("nanocached_node_cas_sets_total"@, "counter"@, stats.cas_sets as nat));
    lemma_shows_add(a, b, sample("nanocached_node_cas_deletes_total"@, "counter"@, stats.cas_deletes as nat));
    lemma_shows_add(a + b, c, sample("nanocached_node_cas_deletes_total"@, "counter"@, stats.cas_deletes as nat));
}

/// Every count of the cache and of the connections is shown, under its own name
/// and as what it is: what can fall as a gauge, what only grows as a counter.
pub proof fn law_every_count_is_shown(
    stats: CacheStats,
    connections: usize,
    max_connections: usize,
)
    ensures
        ({
            let text = node_metrics(stats, connections, max_connections);
            &&& shows(text, sample("nanocached_node_memory_used_bytes"@, "gauge"@, stats.used_bytes as nat))
            &&& shows(text, sample("nanocached_node_memory_max_bytes"@, "gauge"@, stats.max_memory_bytes as nat))
            &&& shows(text, sample("nanocached_node_entries"@, "gauge"@, stats.entries as nat))
            &&& shows(text, sample("nanocached_node_connections"@, "gauge"@, connections as nat))
            &&& shows(text, sample("nanocached_node_connections_max"@, "gauge"@, max_connections as nat))
            &&& shows(text, sample("nanocached_node_hits_total"@, "counter"@, stats.hits as nat))
            &&& shows(text, sample("nanocached_node_misses_total"@, "counter"@, stats.misses as nat))
            &&& shows(text, sample("nanocached_node_sets_total"@, "counter"@, stats.sets as nat))
            &&& shows(text, sample("nanocached_node_deletes_total"@, "counter"@, stats.deletes as nat))
            &&& shows(text, sample("nanocached_node_evictions_total"@, "counter"@, stats.evictions as nat))
            &&& shows(text, sample("nanocached_node_expirations_total"@, "counter"@, stats.expirations as nat))
            &&& shows(text, sample("nanocached_node_incrs_total"@, "counter"@, stats.incrs as nat))
            &&& shows(text, sample("nanocached_node_cas_sets_total"@, "counter"@, stats.cas_sets as nat))
            &&& shows(text, sample("nanocached_node_cas_deletes_total"@, "counter"@, stats.cas_deletes as nat))
        }),
{
    let text = node_metrics(stats, connections, max_connections);
    let memory = memory_metrics(stats);
    let held = connection_metrics(connections, max_connections);
    let read = read_metrics(stats);
    let written = write_metrics(stats);
    let conditional = conditional_metrics(stats);
    let named = namespace_metrics(stats.namespaces@);
    assert(text == memory + held + read + written + conditional + named);
    lemma_memory_metrics_shown(stats);
    lemma_shows_add(memory, held, sample("nanocached_node_memory_used_bytes"@, "gauge"@, stats.used_bytes as nat));
    lemma_shows_add(memory + held, read, sample("nanocached_node_memory_used_bytes"@, "gauge"@, stats.used_bytes as nat));
    lemma_shows_add(memory + held + read, written, sample("nanocached_node_memory_used_bytes"@, "gauge"@, stats.used_bytes as nat));
    lemma_shows_add(memory + held + read + written, conditional, sample("nanocached_node_memory_used_bytes"@, "gauge"@, stats.used_bytes as nat));
    lemma_shows_add(memory + held + read + written + conditional, named, sample("nanocached_node_memory_used_bytes"@, "gauge"@, stats.used_bytes as nat));
    lemma_shows_add(memory, held, sample("nanocached_node_memory_max_bytes"@, "gauge"@, stats.max_memory_bytes as nat));
    lemma_shows_add(memory + held, read, sample("nanocached_node_memory_max_bytes"@, "gauge"@, stats.max_memory_bytes as nat));
    lemma_shows_add(memory + held + read, written, sample("nanocached_node_memory_max_bytes"@, "gauge"@, stats.max_memory_bytes as nat));
    lemma_shows_add(memory + held + read + written, conditional, sample("nanocached_node_memory_max_bytes"@, "gauge"@, stats.max_memory_bytes as nat));
    lemma_shows_add(memory + held + read + written + conditional, named, sample("nanocached_node_memory_max_bytes"@, "gauge"@, stats.max_memory_bytes as nat));
    lemma_shows_add(memory, held, sample("nanocached_node_entries"@, "gauge"@, stats.entries as nat));
    lemma_shows_add(memory + held, read, sample("nanocached_node_entries"@, "gauge"@, stats.entries as nat));
    lemma_shows_add(memory + held + read, written, sample("nanocached_node_entries"@, "gauge"@, stats.entries as nat));
    lemma_shows_add(memory + held + read + written, conditional, sample("nanocached_node_entries"@, "gauge"@, stats.entries as nat));
    lemma_shows_add(memory + held + read + written + conditional, named, sample("nanocached_node_entries"@, "gauge"@, stats.entries as nat));
    lemma_connection_metrics_shown(connections, max_connections);
    lemma_shows_add(memory, held, sample("nanocached_node_connections"@, "gauge"@, connections as nat));
    lemma_shows_add(memory + held, read, sample("nanocached_node_connections"@, "gauge"@, connections as nat));
    lemma_shows_add(memory + held + read, written, sample("nanocached_node_connections"@, "gauge"@, connections as nat));
    lemma_shows_add(memory + held + read + written, conditional, sample("nanocached_node_connections"@, "gauge"@, connections as nat));
    lemma_shows_add(memory + held + read + written + conditional, named, sample("nanocached_node_connections"@, "gauge"@, connections as nat));
    lemma_shows_add(memory, held, sample("nanocached_node_connections_max"@, "gauge"@, max_connections as nat));
    lemma_shows_add(memory + held, read, sample("nanocached_node_connections_max"@, "gauge"@, max_connections as nat));
    lemma_shows_add(memory + held + read, written, sample("nanocached_node_connections_max"@, "gauge"@, max_connections as nat));
    lemma_shows_add(memory + held + read + written, conditional, sample("nanocached_node_connections_max"@, "gauge"@, max_connections as nat));
    lemma_shows_add(memory + held + read + written + conditional, named, sample("nanocached_node_connections_max"@, "gauge"@, max_connections as nat));
    lemma_read_metrics_shown(stats);
    lemma_shows_add(memory + held, read, sample("nanocached_node_hits_total"@, "counter"@, stats.hits as nat));
    lemma_shows_add(memory + held + read, written, sample("nanocached_node_hits_total"@, "counter"@, stats.hits as nat));
    lemma_shows_add(memory + held + read + written, conditional, sample("nanocached_node_hits_total"@, "counter"@, stats.hits as nat));
    lemma_shows_add(memory + held + read + written + conditional, named, sample("nanocached_node_hits_total"@, "counter"@, stats.hits as nat));
    lemma_shows_add(memory + held, read, sample("nanocached_node_misses_total"@, "counter"@, stats.misses as nat));
    lemma_shows_add(memory + held + read, written, sample("nanocached_node_misses_total"@, "counter"@, stats.misses as nat));
    lemma_shows_add(memory + held + read + written, conditional, sample("nanocached_node_misses_total"@, "counter"@, stats.misses as nat));
    lemma_shows_add(memory + held + read + written + conditional, named, sample("nanocached_node_misses_total"@, "counter"@, stats.misses as nat));
    lemma_write_metrics_shown(stats);
    lemma_shows_add(memory + held + read, written, sample("nanocached_node_sets_total"@, "counter"@, stats.sets as nat));
    lemma_shows_add(memory + held + read + written, conditional, sample("nanocached_node_sets_total"@, "counter"@, stats.sets as nat));
    lemma_shows_add(memory + held + read + written + conditional, named, sample("nanocached_node_sets_total"@, "counter"@, stats.sets as nat));
    lemma_shows_add(memory + held + read, written, sample("nanocached_node_deletes_total"@, "counter"@, stats.deletes as nat));
    lemma_shows_add(memory + held + read + written, conditional, sample("nanocached_node_deletes_total"@, "counter"@, stats.deletes as nat));
    lemma_shows_add(memory + held + read + written + conditional, named, sample("nanocached_node_deletes_total"@, "counter"@, stats.deletes as nat));
    lemma_shows_add(memory + held + read, written, sample("nanocached_node_evictions_total"@, "counter"@, stats.evictions as nat));
    lemma_shows_add(memory + held + read + written, conditional, sample("nanocached_node_evictions_total"@, "counter"@, stats.evictions as nat));
    lemma_shows_add(memory + held + read + written + conditional, named, sample("nanocached_node_evictions_total"@, "counter"@, stats.evictions as nat));
    lemma_shows_add(memory + held + read, written, sample("nanocached_node_expirations_total"@, "counter"@, stats.expirations as nat));
    lemma_shows_add(memory + held + read + written, conditional, sample("nanocached_node_expirations_total"@, "counter"@, stats.expirations as nat));
    lemma_shows_add(memory + held + read + written + conditional, named, sample("nanocached_node_expirations_total"@, "counter"@, stats.expirations as nat));
    lemma_conditional_metrics_shown(stats);
    lemma_shows_add(memory + held + read + written, conditional, sample("nanocached_node_incrs_total"@, "counter"@, stats.incrs as nat));
    lemma_shows_add(memory + held + read + written + conditional, named, sample("nanocached_node_incrs_total"@, "counter"@, stats.incrs as nat));
    lemma_shows_add(memory + held + read + written, conditional, sample("nanocached_node_cas_sets_total"@, "counter"@, stats.cas_sets as nat));
    lemma_shows_add(memory + held + read + written + conditional, named, sample("nanocached_node_cas_sets_total"@, "counter"@, stats.cas_sets as nat));
    lemma_shows_add(memory + held + read + written, conditional, sample("nanocached_node_cas_deletes_total"@, "counter"@, stats.cas_deletes as nat));
    lemma_shows_add(memory + held + read + written + conditional, named, sample("nanocached_node_cas_deletes_total"@, "counter"@, stats.cas_deletes as nat));
}

/// Of every namespace the entries and the bytes are shown, under its own label,
/// and its budget if it has one.
pub proof fn law_every_namespace_is_shown(
    stats: CacheStats,
    connections: usize,
    max_connections: usize,
    index: int,
)
    requires
        0 <= index < stats.namespaces@.len(),
    ensures
        ({
            let text = node_metrics(stats, connections, max_connections);
            let counts = stats.namespaces@[index];
            let label = "{namespace=\""@ + escaped(received_text(counts.namespace@)) + "\"} "@;
            &&& shows(
                text,
                "nanocached_node_namespace_entries"@ + label + decimal_text(counts.entries as nat)
                    + "\n"@,
            )
            &&& shows(
                text,
                "nanocached_node_namespace_used_bytes"@ + label + decimal_text(
                    counts.used_bytes as nat,
                ) + "\n"@,
            )
            &&& counts.budget_bytes matches Some(budget) ==> shows(
                text,
                "nanocached_node_namespace_budget_bytes"@ + label + decimal_text(budget as nat)
                    + "\n"@,
            )
        }),
{
    let text = node_metrics(stats, connections, max_connections);
    let namespaces = stats.namespaces@;
    let counts = namespaces[index];
    let label = "{namespace=\""@ + escaped(received_text(counts.namespace@)) + "\"} "@;
    let entries = "nanocached_node_namespace_entries"@ + label + decimal_text(counts.entries as nat)
        + "\n"@;
    let bytes = "nanocached_node_namespace_used_bytes"@ + label + decimal_text(
        counts.used_bytes as nat,
    ) + "\n"@;
    let budgeted = "nanocached_node_namespace_budget_bytes"@ + label + decimal_text(
        counts.budget_bytes->0 as nat,
    ) + "\n"@;
    lemma_labelled_line(
        "nanocached_node_namespace_entries"@,
        counts.namespace@,
        counts.entries as nat,
    );
    lemma_labelled_line(
        "nanocached_node_namespace_used_bytes"@,
        counts.namespace@,
        counts.used_bytes as nat,
    );
    lemma_labelled_line(
        "nanocached_node_namespace_budget_bytes"@,
        counts.namespace@,
        counts.budget_bytes->0 as nat,
    );
    lemma_lines_shown(namespaces, index);
    let first = metric(
        "nanocached_node_namespace_entries"@,
        "gauge"@,
        "Live entries per namespace (empty label = the default namespace)."@,
        entry_lines(namespaces),
    );
    let second = metric(
        "nanocached_node_namespace_used_bytes"@,
        "gauge"@,
        "Bytes per namespace."@,
        byte_lines(namespaces),
    );
    lemma_metric_shows(
        "nanocached_node_namespace_entries"@,
        "gauge"@,
        "Live entries per namespace (empty label = the default namespace)."@,
        entry_lines(namespaces),
        entries,
    );
    lemma_metric_shows(
        "nanocached_node_namespace_used_bytes"@,
        "gauge"@,
        "Bytes per namespace."@,
        byte_lines(namespaces),
        bytes,
    );
    lemma_shows_add(first, second, entries);
    lemma_shows_add(first, second, bytes);
    let budgets = if has_budget(namespaces) {
        metric(
            "nanocached_node_namespace_budget_bytes"@,
            "gauge"@,
            "The --namespace-budget cap, for namespaces that have one (issue #127)."@,
            budget_lines(namespaces),
        )
    } else {
        Seq::empty()
    };
    let all = namespace_metrics(namespaces);
    assert(all == first + second + budgets);
    lemma_shows_add(first + second, budgets, entries);
    lemma_shows_add(first + second, budgets, bytes);
    let before = memory_metrics(stats) + connection_metrics(connections, max_connections)
        + read_metrics(stats) + write_metrics(stats) + conditional_metrics(stats);
    assert(text == before + all);
    lemma_shows_add(before, all, entries);
    lemma_shows_add(before, all, bytes);
    if counts.budget_bytes is Some {
        assert(has_budget(namespaces));
        lemma_metric_shows(
            "nanocached_node_namespace_budget_bytes"@,
            "gauge"@,
            "The --namespace-budget cap, for namespaces that have one (issue #127)."@,
            budget_lines(namespaces),
            budgeted,
        );
        lemma_shows_add(first + second, budgets, budgeted);
        lemma_shows_add(before, all, budgeted);
    }
}

proof fn lemma_labelled_line(name: Seq<char>, namespace: Seq<u8>, n: nat)
    ensures
        name + ("{namespace=\""@ + escaped(received_text(namespace)) + "\"} "@) + decimal_text(n)
            + "\n"@ == namespace_line(name, namespace, n),
{
    let label = escaped(received_text(namespace));
    lemma_add_associates(name, "{namespace=\""@, label);
    lemma_add_associates(name, "{namespace=\""@ + label, "\"} "@);
}

proof fn lemma_metric_shows(
    name: Seq<char>,
    kind: Seq<char>,
    help: Seq<char>,
    value: Seq<char>,
    part: Seq<char>,
)
    requires
        shows(value, part),
    ensures
        shows(metric(name, kind, help, value), part),
{
    let before = "# HELP "@ + name + " "@ + help + "\n# TYPE "@ + name + " "@ + kind + "\n"@;
    lemma_shows_add(before, value, part);
}

proof fn lemma_lines_shown(namespaces: Seq<NamespaceStats>, index: int)
    requires
        0 <= index < namespaces.len(),
    ensures
        shows(
            entry_lines(namespaces),
            namespace_line(
                "nanocached_node_namespace_entries"@,
                namespaces[index].namespace@,
                namespaces[index].entries as nat,
            ),
        ),
        shows(
            byte_lines(namespaces),
            namespace_line(
                "nanocached_node_namespace_used_bytes"@,
                namespaces[index].namespace@,
                namespaces[index].used_bytes as nat,
            ),
        ),
        namespaces[index].budget_bytes matches Some(budget) ==> shows(
            budget_lines(namespaces),
            namespace_line(
                "nanocached_node_namespace_budget_bytes"@,
                namespaces[index].namespace@,
                budget as nat,
            ),
        ),
    decreases namespaces.len(),
{
    let rest = namespaces.drop_last();
    let counts = namespaces[index];
    let entries = namespace_line(
        "nanocached_node_namespace_entries"@,
        counts.namespace@,
        counts.entries as nat,
    );
    let bytes = namespace_line(
        "nanocached_node_namespace_used_bytes"@,
        counts.namespace@,
        counts.used_bytes as nat,
    );
    let budgeted = namespace_line(
        "nanocached_node_namespace_budget_bytes"@,
        counts.namespace@,
        counts.budget_bytes->0 as nat,
    );
    let last = namespaces.last();
    if index < rest.len() {
        lemma_lines_shown(rest, index);
        assert(rest[index] == counts);
        lemma_shows_add(
            entry_lines(rest),
            namespace_line(
                "nanocached_node_namespace_entries"@,
                last.namespace@,
                last.entries as nat,
            ),
            entries,
        );
        lemma_shows_add(
            byte_lines(rest),
            namespace_line(
                "nanocached_node_namespace_used_bytes"@,
                last.namespace@,
                last.used_bytes as nat,
            ),
            bytes,
        );
        if counts.budget_bytes is Some {
            lemma_shows_add(
                budget_lines(rest),
                match last.budget_bytes {
                    Some(budget) => namespace_line(
                        "nanocached_node_namespace_budget_bytes"@,
                        last.namespace@,
                        budget as nat,
                    ),
                    None => Seq::empty(),
                },
                budgeted,
            );
        }
    } else {
        lemma_shows_itself(entry_lines(rest), entries);
        lemma_shows_itself(byte_lines(rest), bytes);
        if counts.budget_bytes is Some {
            lemma_shows_itself(budget_lines(rest), budgeted);
        }
    }
}

/// A number is shown by the digits that it has on the wire.
pub proof fn law_numbers_are_shown_by_their_digits(n: nat)
    ensures
        decimal_text(n).len() == decimal(n).len(),
        forall|i: int|
            0 <= i < decimal(n).len() ==> #[trigger] decimal_text(n)[i] as u32 == decimal(n)[i] as u32,
    decreases n,
{
    if n >= 10 {
        law_numbers_are_shown_by_their_digits(n / 10);
    }
}

/// A text without a backslash, a quote or a line feed is its own label; and a
/// quote in a label always stands behind a backslash.
pub proof fn law_only_what_must_be_is_escaped(text: Seq<char>)
    ensures
        (forall|i: int|
            0 <= i < text.len() ==> #[trigger] text[i] != '\\' && text[i] != '"' && text[i] != '\n')
            ==> escaped(text) == text,
        forall|i: int|
            0 <= i < escaped(text).len() && #[trigger] escaped(text)[i] == '"' ==> i > 0
                && escaped(text)[i - 1] == '\\',
    decreases text.len(),
{
    if text.len() > 0 {
        let rest = text.drop_last();
        law_only_what_must_be_is_escaped(rest);
        let label = escaped(text);
        let last = escaped_character(text.last());
        assert(label == escaped(rest) + last);
        assert forall|i: int| 0 <= i < label.len() && #[trigger] label[i] == '"' implies i > 0
            && label[i - 1] == '\\' by {
            if i < escaped(rest).len() {
                assert(escaped(rest)[i] == '"');
                assert(label[i - 1] == escaped(rest)[i - 1]);
            } else {
                assert(label[i] == last[i - escaped(rest).len()]);
                assert(i == escaped(rest).len() + 1);
                assert(label[i - 1] == last[0]);
            }
        }
        if forall|i: int|
            0 <= i < text.len() ==> #[trigger] text[i] != '\\' && text[i] != '"' && text[i]
                != '\n' {
            assert forall|i: int| 0 <= i < rest.len() implies #[trigger] rest[i] != '\\' && rest[i]
                != '"' && rest[i] != '\n' by {
                assert(text[i] != '\\');
            }
            assert(text[text.len() - 1] != '\\');
            assert(label =~= text);
        }
    } else {
        assert(escaped(text) =~= text);
    }
}

} // verus!
