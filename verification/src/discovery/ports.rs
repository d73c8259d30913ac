//! Ports to probe: the well-known ones and those that `ss` and `docker ps` list.
use crate::deep::{
    contains, deep_chars, deep_ports, distinct, keep_distinct, lemma_contains_concat,
    lemma_contains_push, lemma_distinct, lemma_distinct_of_distinct, lemma_filter, push_new,
};
use crate::order::{
    is_order, law_sorted_in_order, law_sorted_is_permutation, lemma_permutation_contains,
    lemma_permutation_distinct, sorted, stable_sort, Ranked,
};
use crate::text::{
    after_last, chars_of, decimal, find, find_chars, is_digit, law_after_last,
    law_number_read_back, leading, lemma_cut, lemma_decimal_digits, lemma_find_least,
    lemma_first_place, lemma_is_digit, lines, occurs_at, parse_u16, push_decimal, split,
    split_at_class, split_lines, split_words, string_of, strip_start, tail_after_last, take_class,
    u16_value, words, Class,
};
use std::collections::HashMap;
use vstd::prelude::*;
use vstd::string::*;

verus! {

broadcast use {deep_chars, deep_ports, vstd::std_specs::hash::group_hash_axioms};

/// The ports on which OpenAI-compatible servers listen by default: Ollama,
/// LM Studio, vLLM, llama.cpp, text-generation-webui and others.
pub open spec fn default_ports() -> Seq<u16> {
    seq![11434, 1234, 8000, 8080, 5000, 5001, 8001, 11435, 11436, 6333, 6334]
}

/// Well-known OpenAI-compatible ports on localhost, followed by those of `extra`
/// that are not among them.
pub fn well_known_ports(extra: &[u16]) -> (r: Vec<u16>)
    ensures
        r@ == distinct(default_ports() + extra@),
{
    let mut all: Vec<u16> = vec![11434, 1234, 8000, 8080, 5000, 5001, 8001, 11435, 11436, 6333, 6334];
    proof {
        assert(all@ =~= default_ports());
    }
    all.extend_from_slice(extra);
    proof {
        assert(all@ =~= default_ports() + extra@);
    }
    keep_distinct(all)
}

/// The port that an address token names: the digits behind its last colon.
pub open spec fn token_port(token: Seq<char>) -> Option<u16> {
    match after_last(token, ':') {
        Some(t) => u16_value(leading(t, Class::Digit)),
        None => None,
    }
}

/// The port that an address token names: the digits behind its last colon.
fn port_of_token(token: &[char]) -> (r: Option<u16>)
    ensures
        r == token_port(token@),
{
    match tail_after_last(token, ':') {
        Some(t) => parse_u16(take_class(t, Class::Digit)),
        None => None,
    }
}

/// The ports that address tokens name, each once, without the one of SSH.
pub open spec fn listed_ports(tokens: Seq<Seq<char>>) -> Seq<u16>
    decreases tokens.len(),
{
    if tokens.len() == 0 {
        Seq::empty()
    } else {
        let before = listed_ports(tokens.drop_last());
        match token_port(tokens.last()) {
            Some(p) if p != 22 && !before.contains(p) => before.push(p),
            _ => before,
        }
    }
}

/// The listening ports in an output of `ss -tln`.
pub open spec fn ss_ports_in(text: Seq<char>) -> Seq<u16> {
    sorted::<u16>(listed_ports(words(text)))
}

/// The listening ports in an output of `ss -tln`, in increasing order, each once.
pub fn parse_ss_ports(ss_output: &str) -> (r: Vec<u16>)
    ensures
        r@ == sorted::<u16>(listed_ports(words(ss_output@))),
        r@ == ss_ports_in(ss_output@),
{
    let v = chars_of(ss_output);
    let tokens = split_words(v.as_slice());
    let ghost all = tokens.deep_view();
    let mut ports: Vec<u16> = Vec::new();
    let mut i: usize = 0;
    while i < tokens.len()
        invariant
            i <= tokens@.len(),
            all == tokens.deep_view(),
            ports@ == listed_ports(all.take(i as int)),
        decreases tokens@.len() - i,
    {
        proof {
            assert(all.take(i + 1).drop_last() =~= all.take(i as int));
            assert(all.take(i + 1).last() == tokens@[i as int]@);
        }
        if let Some(p) = port_of_token(tokens[i].as_slice()) {
            if p != 22 {
                push_new(&mut ports, p);
            }
        }
        i = i + 1;
    }
    proof {
        assert(all.take(i as int) =~= all);
    }
    stable_sort(ports)
}

/// The first port that a line's tokens name.
pub open spec fn first_port(tokens: Seq<Seq<char>>) -> Option<u16>
    decreases tokens.len(),
{
    if tokens.len() == 0 {
        None
    } else {
        match token_port(tokens.first()) {
            Some(p) => Some(p),
            None => first_port(tokens.drop_first()),
        }
    }
}

/// The process name in a line: what stands between `users:(("` and the next quote.
pub open spec fn process_name(line: Seq<char>) -> Option<Seq<char>> {
    match find(line, "users:((\""@, 0) {
        Some(i) => {
            let rest = line.skip(i + 9);
            match find(rest, seq!['"'], 0) {
                Some(end) => Some(rest.take(end)),
                None => None,
            }
        },
        None => None,
    }
}

/// The process names by port that lines give; a later line wins.
pub open spec fn processes(lines: Seq<Seq<char>>) -> Map<u16, Seq<char>>
    decreases lines.len(),
{
    if lines.len() == 0 {
        Map::empty()
    } else {
        let before = processes(lines.drop_last());
        match (first_port(words(lines.last())), process_name(lines.last())) {
            (Some(p), Some(name)) => before.insert(p, name),
            _ => before,
        }
    }
}

/// The first port that a line's tokens name.
fn port_of_line(line: &[char]) -> (r: Option<u16>)
    ensures
        r == first_port(words(line@)),
{
    let tokens = split_words(line);
    let ghost all = tokens.deep_view();
    let mut i: usize = 0;
    proof {
        assert(all.skip(0) =~= all);
    }
    while i < tokens.len()
        invariant
            i <= tokens@.len(),
            all == tokens.deep_view(),
            all == words(line@),
            first_port(all) == first_port(all.skip(i as int)),
        decreases tokens@.len() - i,
    {
        proof {
            assert(all.skip(i as int).drop_first() =~= all.skip(i + 1));
            assert(all.skip(i as int).first() == tokens@[i as int]@);
        }
        if let Some(p) = port_of_token(tokens[i].as_slice()) {
            return Some(p);
        }
        i = i + 1;
    }
    None
}

/// The process name in a line.
fn name_of_line(line: &[char]) -> (r: Option<String>)
    ensures
        r.deep_view() == process_name(line@),
{
    let mark = chars_of("users:((\"");
    proof {
        reveal_strlit("users:((\"");
    }
    let start: usize = match find_chars(line, mark.as_slice(), 0) {
        Some(i) => i,
        None => {
            return None;
        },
    };
    let n: usize = line.len();
    let rest = vstd::slice::slice_subrange(line, start + 9, n);
    let quote: [char; 1] = ['"'];
    proof {
        assert(quote@ =~= seq!['"']);
        assert(rest@ =~= line@.skip(start + 9));
    }
    match find_chars(rest, quote.as_slice(), 0) {
        Some(end) => Some(string_of(vstd::slice::slice_subrange(rest, 0, end))),
        None => None,
    }
}

/// The names that a map holds.
pub open spec fn names_of(m: HashMap<u16, String>) -> Map<u16, Seq<char>> {
    m@.map_values(|s: String| s@)
}

/// The process names by port in an output of `ss -tlnp`.
pub fn parse_ss_processes(ss_output: &str) -> (r: HashMap<u16, String>)
    ensures
        names_of(r) == processes(lines(ss_output@)),
{
    let v = chars_of(ss_output);
    let rows = split_lines(v.as_slice());
    let ghost all = rows.deep_view();
    let mut map: HashMap<u16, String> = HashMap::new();
    let mut i: usize = 0;
    proof {
        assert(names_of(map) =~= processes(all.take(0)));
    }
    while i < rows.len()
        invariant
            i <= rows@.len(),
            all == rows.deep_view(),
            names_of(map) == processes(all.take(i as int)),
        decreases rows@.len() - i,
    {
        proof {
            assert(all.take(i + 1).drop_last() =~= all.take(i as int));
            assert(all.take(i + 1).last() == rows@[i as int]@);
        }
        if let Some(p) = port_of_line(rows[i].as_slice()) {
            if let Some(name) = name_of_line(rows[i].as_slice()) {
                let ghost before = names_of(map);
                map.insert(p, name);
                proof {
                    assert(names_of(map) =~= before.insert(p, name@));
                }
            }
        }
        i = i + 1;
    }
    proof {
        assert(all.take(i as int) =~= all);
    }
    map
}

/// The host port of a published port such as `0.0.0.0:8000->8000/tcp`.
pub open spec fn published_port(token: Seq<char>) -> Option<u16> {
    let left = match find(token, "->"@, 0) {
        Some(i) => token.take(i),
        None => token,
    };
    match after_last(left, ':') {
        Some(t) => u16_value(t),
        None => None,
    }
}

/// The host port of a published port such as `0.0.0.0:8000->8000/tcp`.
fn port_of_published(token: &[char]) -> (r: Option<u16>)
    ensures
        r == published_port(token@),
{
    let arrow = chars_of("->");
    let left = match find_chars(token, arrow.as_slice(), 0) {
        Some(i) => vstd::slice::slice_subrange(token, 0, i),
        None => token,
    };
    match tail_after_last(left, ':') {
        Some(t) => parse_u16(t),
        None => None,
    }
}

/// The host ports that tokens publish, each once, after those in `before`.
pub open spec fn published(tokens: Seq<Seq<char>>, before: Seq<u16>) -> Seq<u16>
    decreases tokens.len(),
{
    if tokens.len() == 0 {
        before
    } else {
        let b = published(tokens.drop_last(), before);
        match published_port(tokens.last()) {
            Some(p) if !b.contains(p) => b.push(p),
            _ => b,
        }
    }
}

/// The host ports that the comma-separated parts of a line publish.
pub open spec fn published_in_parts(parts: Seq<Seq<char>>, before: Seq<u16>) -> Seq<u16>
    decreases parts.len(),
{
    if parts.len() == 0 {
        before
    } else {
        published(words(parts.last()), published_in_parts(parts.drop_last(), before))
    }
}

/// The host ports that lines publish.
pub open spec fn published_in_lines(lines: Seq<Seq<char>>) -> Seq<u16>
    decreases lines.len(),
{
    if lines.len() == 0 {
        Seq::empty()
    } else {
        published_in_parts(
            split(lines.last(), Class::Only(',')),
            published_in_lines(lines.drop_last()),
        )
    }
}

/// Adds the host ports that a part of a line publishes.
fn add_published(part: &[char], ports: &mut Vec<u16>)
    ensures
        final(ports)@ == published(words(part@), old(ports)@),
{
    let ghost start = ports@;
    let tokens = split_words(part);
    let ghost all = tokens.deep_view();
    let mut i: usize = 0;
    while i < tokens.len()
        invariant
            i <= tokens@.len(),
            all == tokens.deep_view(),
            ports@ == published(all.take(i as int), start),
        decreases tokens@.len() - i,
    {
        proof {
            assert(all.take(i + 1).drop_last() =~= all.take(i as int));
            assert(all.take(i + 1).last() == tokens@[i as int]@);
        }
        if let Some(p) = port_of_published(tokens[i].as_slice()) {
            push_new(ports, p);
        }
        i = i + 1;
    }
    proof {
        assert(all.take(i as int) =~= all);
    }
}

/// The published host ports in an output of `docker ps --format {{.Ports}}`.
pub open spec fn docker_ports_in(text: Seq<char>) -> Seq<u16> {
    sorted::<u16>(published_in_lines(lines(text)))
}

/// The published host ports in an output of `docker ps --format {{.Ports}}`, in
/// increasing order, each once.
pub fn parse_docker_ports(output: &str) -> (r: Vec<u16>)
    ensures
        r@ == sorted::<u16>(published_in_lines(lines(output@))),
        r@ == docker_ports_in(output@),
{
    let v = chars_of(output);
    let rows = split_lines(v.as_slice());
    let ghost all = rows.deep_view();
    let mut ports: Vec<u16> = Vec::new();
    let mut i: usize = 0;
    while i < rows.len()
        invariant
            i <= rows@.len(),
            all == rows.deep_view(),
            ports@ == published_in_lines(all.take(i as int)),
        decreases rows@.len() - i,
    {
        let ghost start = ports@;
        let parts = split_at_class(rows[i].as_slice(), Class::Only(','));
        let ghost pieces = parts.deep_view();
        let mut j: usize = 0;
        while j < parts.len()
            invariant
                j <= parts@.len(),
                pieces == parts.deep_view(),
                ports@ == published_in_parts(pieces.take(j as int), start),
            decreases parts@.len() - j,
        {
            proof {
                assert(pieces.take(j + 1).drop_last() =~= pieces.take(j as int));
                assert(pieces.take(j + 1).last() == parts@[j as int]@);
            }
            add_published(parts[j].as_slice(), &mut ports);
            j = j + 1;
        }
        proof {
            assert(pieces.take(j as int) =~= pieces);
            assert(all.take(i + 1).drop_last() =~= all.take(i as int));
            assert(all.take(i + 1).last() == rows@[i as int]@);
        }
        i = i + 1;
    }
    proof {
        assert(all.take(i as int) =~= all);
    }
    stable_sort(ports)
}

/// The display name of the server on a port.
pub open spec fn hint(port: u16, names: Map<u16, Seq<char>>) -> Seq<char> {
    if names.contains_key(port) {
        names[port]
    } else if port == 11434 {
        "ollama"@
    } else if port == 1234 {
        "lmstudio"@
    } else if port == 8000 || port == 8001 {
        "vllm"@
    } else if port == 8080 {
        "llama.cpp"@
    } else {
        "port-"@ + decimal(port as nat)
    }
}

/// The display name of the server on a port: its process name if that is known.
pub fn proc_hint(port: u16, proc_map: &HashMap<u16, String>) -> (r: String)
    ensures
        r@ == hint(port, names_of(*proc_map)),
{
    if let Some(name) = proc_map.get(&port) {
        return name.clone();
    }
    match port {
        11434 => "ollama".to_owned(),
        1234 => "lmstudio".to_owned(),
        8000 | 8001 => "vllm".to_owned(),
        8080 => "llama.cpp".to_owned(),
        _ => {
            let mut s = "port-".to_owned();
            push_decimal(&mut s, port as u64);
            s
        },
    }
}

/// The items of `s` that are not in `without`.
pub open spec fn minus(s: Seq<u16>, without: Seq<u16>) -> Seq<u16> {
    s.filter(|p: u16| !without.contains(p))
}

/// The local ports to probe.
pub open spec fn ports_to_scan(
    extra: Seq<u16>,
    listening: Seq<u16>,
    published: Seq<u16>,
    exclude: Seq<u16>,
) -> Seq<u16> {
    minus(
        sorted::<u16>(distinct(distinct(default_ports() + extra) + listening + published)),
        exclude,
    )
}

/// The local ports to probe, in increasing order, each once: the well-known
/// ones, those of `extra`, the listening and the published ones, but none of
/// `exclude` (e.g. the hive's own port, so that it cannot discover itself).
pub fn scan_ports(extra: &[u16], listening: &[u16], published: &[u16], exclude: &[u16]) -> (r: Vec<
    u16,
>)
    ensures
        r@ == minus(
            sorted::<u16>(distinct(distinct(default_ports() + extra@) + listening@ + published@)),
            exclude@,
        ),
        r@ == ports_to_scan(extra@, listening@, published@, exclude@),
{
    let mut all = well_known_ports(extra);
    all.extend_from_slice(listening);
    all.extend_from_slice(published);
    proof {
        assert(all@ =~= distinct(default_ports() + extra@) + listening@ + published@);
    }
    let all = stable_sort(keep_distinct(all));
    let barred = vstd::slice::slice_to_vec(exclude);
    let ghost keep = |p: u16| !exclude@.contains(p);
    let mut out: Vec<u16> = Vec::new();
    let mut i: usize = 0;
    proof {
        reveal(Seq::filter);
        assert(out@ =~= all@.take(0).filter(keep));
    }
    while i < all.len()
        invariant
            i <= all@.len(),
            barred@ == exclude@,
            keep == (|p: u16| !exclude@.contains(p)),
            out@ == all@.take(i as int).filter(keep),
        decreases all@.len() - i,
    {
        proof {
            reveal(Seq::filter);
            assert(all@.take(i + 1).drop_last() =~= all@.take(i as int));
            assert(all@.take(i + 1).last() == all@[i as int]);
        }
        if !contains(&barred, &all[i]) {
            out.push(all[i]);
        }
        i = i + 1;
    }
    proof {
        assert(all@.take(i as int) =~= all@);
    }
    out
}

/// The default ports are distinct.
pub proof fn lemma_default_ports_distinct()
    ensures
        distinct(default_ports() + Seq::<u16>::empty()) == default_ports(),
{
    let d = default_ports();
    assert(d + Seq::<u16>::empty() =~= d);
    lemma_distinct_of_distinct(d);
}

/// A port that is excluded, such as the hive's own, is never probed; every other
/// port that was named is, once, in increasing order.
pub proof fn law_scanned_ports(
    extra: Seq<u16>,
    listening: Seq<u16>,
    published: Seq<u16>,
    exclude: Seq<u16>,
    p: u16,
)
    ensures
        ({
            let named = distinct(default_ports() + extra) + listening + published;
            let out = minus(sorted::<u16>(distinct(named)), exclude);
            out.contains(p) <==> !exclude.contains(p) && (default_ports().contains(p)
                || extra.contains(p) || listening.contains(p) || published.contains(p))
        }),
{
    let known = default_ports() + extra;
    let named = distinct(known) + listening + published;
    let s = sorted::<u16>(distinct(named));
    lemma_distinct(known);
    lemma_distinct(named);
    law_sorted_is_permutation::<u16>(distinct(named));
    lemma_permutation_contains(s, distinct(named), p);
    lemma_filter(s, |q: u16| !exclude.contains(q), p);
    lemma_contains_concat(default_ports(), extra, p);
    lemma_contains_concat(distinct(known), listening, p);
    lemma_contains_concat(distinct(known) + listening, published, p);
    assert(distinct(named).contains(p) <==> named.contains(p));
    assert(distinct(known).contains(p) <==> known.contains(p));
}

/// The port that is published is the one on the host: what follows the arrow, such as
/// the port inside the container, does not matter.
pub proof fn law_host_port_is_published(address: Seq<char>, host: u16, rest: Seq<char>)
    requires
        !address.contains('>'),
    ensures
        published_port(address + ":"@ + decimal(host as nat) + "->"@ + rest) == Some(host),
        published_port(address + ":"@ + decimal(host as nat)) == Some(host),
{
    reveal_strlit(":");
    reveal_strlit("->");
    let left = address + ":"@ + decimal(host as nat);
    let token = left + "->"@ + rest;
    let n = left.len() as int;
    lemma_decimal_digits(host as nat);
    assert forall|i: int| 0 <= i < left.len() implies #[trigger] left[i] != '>' by {
        if i < address.len() {
            assert(address.contains(address[i]));
        } else if i > address.len() {
            assert(is_digit(decimal(host as nat)[i - address.len() - 1]));
        }
    }
    assert(token.subrange(n, n + 2) =~= "->"@);
    assert forall|i: int| 0 <= i < n implies !#[trigger] occurs_at(token, "->"@, i) by {
        if occurs_at(token, "->"@, i) {
            assert(token.subrange(i, i + 2)[1] == token[i + 1]);
            if i + 1 < n {
                assert(left[i + 1] != '>');
            } else {
                assert(token[n] == '-');
            }
        }
    }
    lemma_first_place(token, "->"@, 0, n);
    assert(token.take(n) =~= left);
    lemma_find_least(left, "->"@, 0);
    if let Some(i) = find(left, "->"@, 0) {
        assert(left.subrange(i, i + 2)[1] == left[i + 1]);
    }
    lemma_port_behind_colon(address, host);
    law_number_read_back(host);
}

/// What stands behind the last colon of an address with a port is the port.
proof fn lemma_port_behind_colon(address: Seq<char>, port: u16)
    ensures
        after_last(address + ":"@ + decimal(port as nat), ':') == Some(decimal(port as nat)),
{
    reveal_strlit(":");
    let d = decimal(port as nat);
    lemma_decimal_digits(port as nat);
    assert(!d.contains(':')) by {
        if d.contains(':') {
            let i = choose|i: int| 0 <= i < d.len() && d[i] == ':';
            assert(is_digit(d[i]));
        }
    }
    assert(address + ":"@ + d =~= address + seq![':'] + d);
    law_after_last(address, ':', d);
}

/// A port that is exposed but not published has no host port.
pub proof fn law_exposed_port_is_not_published(token: Seq<char>)
    requires
        !token.contains(':'),
    ensures
        published_port(token) is None,
{
    let left = match find(token, "->"@, 0) {
        Some(i) => token.take(i),
        None => token,
    };
    lemma_find_least(token, "->"@, 0);
    if left.contains(':') {
        let i = choose|i: int| 0 <= i < left.len() && left[i] == ':';
        assert(token[i] == ':');
    }
    law_after_last(left, ':', left);
}

/// The port of a listening socket is the number behind the last colon of its address,
/// whatever follows that is no digit.
pub proof fn law_listening_port(address: Seq<char>, port: u16, rest: Seq<char>)
    requires
        rest.len() > 0 ==> !('0' <= rest[0] <= '9'),
        !rest.contains(':'),
    ensures
        token_port(address + ":"@ + decimal(port as nat) + rest) == Some(port),
{
    reveal_strlit(":");
    let d = decimal(port as nat);
    let tail = d + rest;
    lemma_decimal_digits(port as nat);
    assert(!tail.contains(':')) by {
        if tail.contains(':') {
            let i = choose|i: int| 0 <= i < tail.len() && tail[i] == ':';
            if i < d.len() {
                assert(is_digit(d[i]));
            } else {
                assert(rest[i - d.len()] == ':');
            }
        }
    }
    assert(address + ":"@ + d + rest =~= address + seq![':'] + tail);
    law_after_last(address, ':', tail);
    lemma_leading_digits(d, rest);
    law_number_read_back(port);
}

/// The digits in front of what is no digit.
proof fn lemma_leading_digits(d: Seq<char>, rest: Seq<char>)
    requires
        forall|i: int| 0 <= i < d.len() ==> is_digit(#[trigger] d[i]),
        rest.len() > 0 ==> !('0' <= rest[0] <= '9'),
    ensures
        strip_start(d + rest, Class::Digit) == rest,
        leading(d + rest, Class::Digit) == d,
    decreases d.len(),
{
    let s = d + rest;
    if d.len() > 0 {
        let e = d.drop_first();
        assert forall|i: int| 0 <= i < e.len() implies is_digit(#[trigger] e[i]) by {
            assert(e[i] == d[i + 1]);
        }
        lemma_leading_digits(e, rest);
        assert(is_digit(d[0]));
        assert(s.drop_first() =~= e + rest);
    } else {
        assert(s =~= rest);
        if rest.len() > 0 {
            lemma_is_digit(rest[0]);
        }
    }
    assert(s.take(s.len() - rest.len()) =~= d);
}

/// The listening ports are those that a token names, all but the one of SSH, each
/// once.
pub proof fn law_ss_ports(tokens: Seq<Seq<char>>, p: u16)
    ensures
        listed_ports(tokens).contains(p) <==> p != 22 && exists|i: int|
            0 <= i < tokens.len() && #[trigger] token_port(tokens[i]) == Some(p),
        listed_ports(tokens).no_duplicates(),
    decreases tokens.len(),
{
    if tokens.len() > 0 {
        let rest = tokens.drop_last();
        let before = listed_ports(rest);
        law_ss_ports(rest, p);
        if let Some(q) = token_port(tokens.last()) {
            lemma_contains_push(before, q, p);
            assert(token_port(tokens[tokens.len() - 1]) == Some(q));
        }
        if exists|i: int| 0 <= i < rest.len() && #[trigger] token_port(rest[i]) == Some(p) {
            let i = choose|i: int| 0 <= i < rest.len() && #[trigger] token_port(rest[i]) == Some(p);
            assert(token_port(tokens[i]) == Some(p));
        }
        if exists|i: int| 0 <= i < tokens.len() && #[trigger] token_port(tokens[i]) == Some(p) {
            let i = choose|i: int|
                0 <= i < tokens.len() && #[trigger] token_port(tokens[i]) == Some(p);
            if i < rest.len() {
                assert(token_port(rest[i]) == Some(p));
            }
        }
    }
}

/// The ports that tokens publish are added to those before, each once.
proof fn lemma_published(tokens: Seq<Seq<char>>, before: Seq<u16>, p: u16)
    ensures
        published(tokens, before).contains(p) <==> before.contains(p) || exists|i: int|
            0 <= i < tokens.len() && #[trigger] published_port(tokens[i]) == Some(p),
        before.no_duplicates() ==> published(tokens, before).no_duplicates(),
    decreases tokens.len(),
{
    if tokens.len() > 0 {
        let rest = tokens.drop_last();
        lemma_published(rest, before, p);
        let b = published(rest, before);
        if let Some(q) = published_port(tokens.last()) {
            lemma_contains_push(b, q, p);
            assert(published_port(tokens[tokens.len() - 1]) == Some(q));
        }
        if exists|i: int| 0 <= i < rest.len() && #[trigger] published_port(rest[i]) == Some(p) {
            let i = choose|i: int|
                0 <= i < rest.len() && #[trigger] published_port(rest[i]) == Some(p);
            assert(published_port(tokens[i]) == Some(p));
        }
        if exists|i: int| 0 <= i < tokens.len() && #[trigger] published_port(tokens[i]) == Some(p) {
            let i = choose|i: int|
                0 <= i < tokens.len() && #[trigger] published_port(tokens[i]) == Some(p);
            if i < rest.len() {
                assert(published_port(rest[i]) == Some(p));
            }
        }
    }
}

/// Whether a word of a comma-separated part of a line publishes a port.
pub open spec fn line_publishes(line: Seq<char>, p: u16) -> bool {
    exists|j: int, i: int|
        0 <= j < split(line, Class::Only(',')).len() && 0 <= i < words(
            split(line, Class::Only(','))[j],
        ).len() && #[trigger] published_port(words(split(line, Class::Only(','))[j])[i]) == Some(p)
}

/// The ports that parts publish are added to those before.
proof fn lemma_published_in_parts(parts: Seq<Seq<char>>, before: Seq<u16>, p: u16)
    ensures
        published_in_parts(parts, before).contains(p) <==> before.contains(p) || exists|
            j: int,
            i: int,
        |
            0 <= j < parts.len() && 0 <= i < words(parts[j]).len() && #[trigger] published_port(
                words(parts[j])[i],
            ) == Some(p),
        before.no_duplicates() ==> published_in_parts(parts, before).no_duplicates(),
    decreases parts.len(),
{
    if parts.len() > 0 {
        let rest = parts.drop_last();
        lemma_published_in_parts(rest, before, p);
        let ws = words(parts.last());
        lemma_published(ws, published_in_parts(rest, before), p);
        if exists|i: int| 0 <= i < ws.len() && #[trigger] published_port(ws[i]) == Some(p) {
            let i = choose|i: int| 0 <= i < ws.len() && #[trigger] published_port(ws[i]) == Some(p);
            assert(published_port(words(parts[parts.len() - 1])[i]) == Some(p));
        }
        if exists|j: int, i: int|
            0 <= j < rest.len() && 0 <= i < words(rest[j]).len() && #[trigger] published_port(
                words(rest[j])[i],
            ) == Some(p) {
            let (j, i) = choose|j: int, i: int|
                0 <= j < rest.len() && 0 <= i < words(rest[j]).len() && #[trigger] published_port(
                    words(rest[j])[i],
                ) == Some(p);
            assert(published_port(words(parts[j])[i]) == Some(p));
        }
        if exists|j: int, i: int|
            0 <= j < parts.len() && 0 <= i < words(parts[j]).len() && #[trigger] published_port(
                words(parts[j])[i],
            ) == Some(p) {
            let (j, i) = choose|j: int, i: int|
                0 <= j < parts.len() && 0 <= i < words(parts[j]).len() && #[trigger] published_port(
                    words(parts[j])[i],
                ) == Some(p);
            if j < rest.len() {
                assert(published_port(words(rest[j])[i]) == Some(p));
            } else {
                assert(published_port(ws[i]) == Some(p));
            }
        }
    }
}

/// The published ports are those that a word of a comma-separated part of a line
/// publishes, each once.
pub proof fn law_docker_ports(rows: Seq<Seq<char>>, p: u16)
    ensures
        published_in_lines(rows).contains(p) <==> exists|i: int|
            0 <= i < rows.len() && #[trigger] line_publishes(rows[i], p),
        published_in_lines(rows).no_duplicates(),
    decreases rows.len(),
{
    if rows.len() > 0 {
        let rest = rows.drop_last();
        let last = rows.last();
        law_docker_ports(rest, p);
        lemma_published_in_parts(split(last, Class::Only(',')), published_in_lines(rest), p);
        assert(rows[rows.len() - 1] == last);
        if exists|i: int| 0 <= i < rest.len() && #[trigger] line_publishes(rest[i], p) {
            let i = choose|i: int| 0 <= i < rest.len() && #[trigger] line_publishes(rest[i], p);
            assert(line_publishes(rows[i], p));
        }
        if line_publishes(last, p) {
            assert(line_publishes(rows[rows.len() - 1], p));
        }
        if exists|i: int| 0 <= i < rows.len() && #[trigger] line_publishes(rows[i], p) {
            let i = choose|i: int| 0 <= i < rows.len() && #[trigger] line_publishes(rows[i], p);
            if i < rest.len() {
                assert(line_publishes(rest[i], p));
            }
        }
    }
}

/// The port of a line is that of its first word that names one.
pub proof fn law_first_port(tokens: Seq<Seq<char>>, i: int)
    requires
        0 <= i <= tokens.len(),
        forall|j: int| 0 <= j < i ==> #[trigger] token_port(tokens[j]) is None,
        i < tokens.len() ==> token_port(tokens[i]) is Some,
    ensures
        first_port(tokens) == if i < tokens.len() {
            token_port(tokens[i])
        } else {
            None
        },
    decreases tokens.len(),
{
    if tokens.len() > 0 && i > 0 {
        let rest = tokens.drop_first();
        assert(token_port(tokens[0]) is None);
        assert forall|j: int| 0 <= j < i - 1 implies #[trigger] token_port(rest[j]) is None by {
            assert(token_port(tokens[j + 1]) is None);
        }
        if i < tokens.len() {
            assert(rest[i - 1] == tokens[i]);
        }
        law_first_port(rest, i - 1);
    }
}

/// A mark that ends in a character found nowhere before stands where it stands.
proof fn lemma_mark_place(before: Seq<char>, mark: Seq<char>, c: char, rest: Seq<char>)
    requires
        mark.len() > 0,
        mark.last() == c,
        !mark.drop_last().contains(c),
        !before.contains(c),
    ensures
        find(before + mark + rest, mark, 0) == Some(before.len() as int),
{
    let line = before + mark + rest;
    let (n, m) = (before.len() as int, mark.len() as int);
    assert(line.subrange(n, n + m) =~= mark);
    assert forall|i: int| 0 <= i < n implies !#[trigger] occurs_at(line, mark, i) by {
        if occurs_at(line, mark, i) {
            assert(line.subrange(i, i + m)[m - 1] == line[i + m - 1]);
            if i + m - 1 < n {
                assert(before.contains(before[i + m - 1]));
            } else {
                assert(mark.drop_last()[i + m - 1 - n] == c);
            }
        }
    }
    lemma_first_place(line, mark, 0, n);
}

/// A process is named in quotes behind `users:((`.
pub proof fn law_process_name(before: Seq<char>, name: Seq<char>, rest: Seq<char>)
    requires
        !before.contains('"'),
        !name.contains('"'),
    ensures
        process_name(before + "users:((\""@ + (name + "\""@ + rest)) == Some(name),
{
    let mark = "users:((\""@;
    let line = before + mark + (name + "\""@ + rest);
    assert(mark.len() == 9 && mark.last() == '"' && !mark.drop_last().contains('"')) by {
        reveal_strlit("users:((\"");
    }
    lemma_mark_place(before, mark, '"', name + "\""@ + rest);
    let tail = line.skip(before.len() as int + 9);
    assert(tail =~= name + "\""@ + rest);
    assert(tail =~= name + (seq!['"'] + rest)) by {
        reveal_strlit("\"");
    }
    assert forall|i: int| 0 <= i < name.len() implies #[trigger] name[i] != '"' by {
        assert(name.contains(name[i]));
    }
    lemma_cut(name, '"', rest);
}

/// A line with a port and a name gives that port that name, and changes no other; a
/// line without one of them changes nothing.
pub proof fn law_processes(rows: Seq<Seq<char>>, line: Seq<char>, p: u16)
    ensures
        ({
            let before = processes(rows);
            let after = processes(rows.push(line));
            match (first_port(words(line)), process_name(line)) {
                (Some(q), Some(name)) => after.contains_key(q) && after[q] == name && (p != q ==> (
                after.contains_key(p) <==> before.contains_key(p)) && (before.contains_key(p)
                    ==> after[p] == before[p])),
                _ => after == before,
            }
        }),
        !processes(Seq::empty()).contains_key(p),
{
    assert(rows.push(line).drop_last() =~= rows);
}

/// A server is shown under the name of its process where that is known, and else
/// under a name that tells its port, or what is served there as a rule.
pub proof fn law_hint(port: u16, names: Map<u16, Seq<char>>, name: Seq<char>)
    ensures
        hint(port, names.insert(port, name)) == name,
        !names.contains_key(port) && !default_ports().contains(port) ==> hint(port, names)
            == "port-"@ + decimal(port as nat),
        !names.contains_key(11434) ==> hint(11434, names) == "ollama"@,
        !names.contains_key(1234) ==> hint(1234, names) == "lmstudio"@,
        !names.contains_key(8000) ==> hint(8000, names) == "vllm"@,
        !names.contains_key(8080) ==> hint(8080, names) == "llama.cpp"@,
{
    let d = default_ports();
    assert(d[0] == 11434 && d[1] == 1234 && d[2] == 8000 && d[3] == 8080 && d[6] == 8001);
}

/// The ports to scan are in increasing order, each once.
pub proof fn law_scan_order(
    extra: Seq<u16>,
    listening: Seq<u16>,
    published: Seq<u16>,
    exclude: Seq<u16>,
    i: int,
    j: int,
)
    requires
        0 <= i < j < minus(
            sorted::<u16>(distinct(distinct(default_ports() + extra) + listening + published)),
            exclude,
        ).len(),
    ensures
        ({
            let out = minus(
                sorted::<u16>(distinct(distinct(default_ports() + extra) + listening + published)),
                exclude,
            );
            out[i] < out[j]
        }),
{
    let named = distinct(distinct(default_ports() + extra) + listening + published);
    let s = sorted::<u16>(named);
    lemma_distinct(distinct(default_ports() + extra) + listening + published);
    lemma_sorted_increasing(named);
    lemma_filter_increasing(s, |p: u16| !exclude.contains(p), i, j);
}

/// Distinct numbers are sorted in increasing order.
proof fn lemma_sorted_increasing(s: Seq<u16>)
    requires
        s.no_duplicates(),
    ensures
        forall|i: int, j: int|
            0 <= i < j < sorted::<u16>(s).len() ==> sorted::<u16>(s)[i] < sorted::<u16>(s)[j],
{
    let t = sorted::<u16>(s);
    assert(is_order::<u16>());
    law_sorted_in_order::<u16>(s);
    law_sorted_is_permutation::<u16>(s);
    lemma_permutation_distinct(s, t);
    assert forall|i: int, j: int| 0 <= i < j < t.len() implies t[i] < t[j] by {
        assert(!u16::before(t[j], t[i]));
        assert(t[i] != t[j]);
    }
}

/// What is left of increasing numbers is increasing.
proof fn lemma_filter_increasing(s: Seq<u16>, keep: spec_fn(u16) -> bool, i: int, j: int)
    requires
        forall|a: int, b: int| 0 <= a < b < s.len() ==> s[a] < s[b],
        0 <= i < j < s.filter(keep).len(),
    ensures
        s.filter(keep)[i] < s.filter(keep)[j],
    decreases s.len(),
{
    reveal(Seq::filter);
    if s.len() > 0 {
        let rest = s.drop_last();
        let f = rest.filter(keep);
        if j < f.len() {
            lemma_filter_increasing(rest, keep, i, j);
        } else {
            lemma_filter(rest, keep, f[i]);
            assert(f.contains(f[i]));
            let k = choose|k: int| 0 <= k < rest.len() && rest[k] == f[i];
            assert(s[k] < s[s.len() - 1]);
        }
    }
}

/// A port is probed exactly if it is well known, asked for, listening or published, and
/// not excluded; the ports come in increasing order, each once.
pub proof fn law_ports_to_scan(
    extra: Seq<u16>,
    listening: Seq<u16>,
    published: Seq<u16>,
    exclude: Seq<u16>,
    p: u16,
)
    ensures
        ({
            let out = ports_to_scan(extra, listening, published, exclude);
            &&& out.contains(p) <==> !exclude.contains(p) && (default_ports().contains(p)
                || extra.contains(p) || listening.contains(p) || published.contains(p))
            &&& forall|i: int, j: int|
                0 <= i < j < out.len() ==> #[trigger] out[i] < #[trigger] out[j]
        }),
{
    law_scanned_ports(extra, listening, published, exclude, p);
    let out = ports_to_scan(extra, listening, published, exclude);
    assert forall|i: int, j: int| 0 <= i < j < out.len() implies #[trigger] out[i]
        < #[trigger] out[j] by {
        law_scan_order(extra, listening, published, exclude, i, j);
    }
}

/// The well-known ports are those that OpenAI-compatible servers listen on by default.
pub proof fn law_default_ports(p: u16)
    ensures
        default_ports().contains(p) <==> p == 11434 || p == 1234 || p == 8000 || p == 8080 || p
            == 5000 || p == 5001 || p == 8001 || p == 11435 || p == 11436 || p == 6333 || p == 6334,
{
    let d = default_ports();
    assert(d[0] == 11434 && d[1] == 1234 && d[2] == 8000 && d[3] == 8080 && d[4] == 5000);
    assert(d[5] == 5001 && d[6] == 8001 && d[7] == 11435 && d[8] == 11436 && d[9] == 6333);
    assert(d[10] == 6334);
}

/// A port without a process is named after the server that has it by default, if one
/// does, and else by its number.
pub proof fn law_port_name(port: u16, names: Map<u16, Seq<char>>)
    requires
        !names.contains_key(port),
    ensures
        port != 11434 && port != 1234 && port != 8000 && port != 8001 && port != 8080 ==> hint(
            port,
            names,
        ) == "port-"@ + decimal(port as nat),
        port == 8001 ==> hint(port, names) == "vllm"@,
{
}

/// What is read from the output of `ss` is the ports that its words name, and from that
/// of `docker ps` the ports that its lines publish; in increasing order, each once.
pub proof fn law_ports_read(text: Seq<char>, p: u16)
    ensures
        ss_ports_in(text).contains(p) <==> p != 22 && exists|i: int|
            0 <= i < words(text).len() && #[trigger] token_port(words(text)[i]) == Some(p),
        docker_ports_in(text).contains(p) <==> exists|i: int|
            0 <= i < lines(text).len() && #[trigger] line_publishes(lines(text)[i], p),
        forall|i: int, j: int|
            0 <= i < j < ss_ports_in(text).len() ==> ss_ports_in(text)[i] < ss_ports_in(text)[j],
        forall|i: int, j: int|
            0 <= i < j < docker_ports_in(text).len() ==> docker_ports_in(text)[i]
                < docker_ports_in(text)[j],
{
    let a = listed_ports(words(text));
    let b = published_in_lines(lines(text));
    law_ss_ports(words(text), p);
    law_docker_ports(lines(text), p);
    law_sorted_is_permutation::<u16>(a);
    law_sorted_is_permutation::<u16>(b);
    lemma_permutation_contains(sorted::<u16>(a), a, p);
    lemma_permutation_contains(sorted::<u16>(b), b, p);
    lemma_sorted_increasing(a);
    lemma_sorted_increasing(b);
}

} // verus!
