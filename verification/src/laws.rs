//! Laws of the library: properties that span several functions or every
//! input, proved over the specifications that the functions' contracts use.

use vstd::prelude::*;
use crate::addr::{
    fields_of, first_run_of, groups_text, hex_text, ipv4_text, ipv6_text, is_v4_mapped,
    lemma_double_colon_is, lemma_fields_of_groups_text, lemma_first_run_bounds, lemma_group_of_hex,
    lemma_groups_of_single, lemma_groups_text, colon_separated, double_colon, groups_of, lemma_no_double_colon, lemma_zero_run_zeros,
    longest_zero_run, octet_of, octets_of, spec_parse_ipv4, spec_parse_ipv6, to_groups, words_of,
    zero_groups,
};
use crate::checks::{spec_connected, spec_reachable};
use crate::text::{
    decimal, join_with, lemma_decimal, lemma_decimal_unique, lemma_digits_exclude, lemma_join_split,
    lemma_split_concat, lemma_split_without, split_on,
};
use crate::text::{
    all_digits, index_of, is_digit, is_hex_digit, is_ws, lemma_index_of, lemma_index_of_is,
    lemma_last_index_of_is, lemma_leading_ws_is, lemma_trailing_ws_is, trim, trim_start, u16_from_text,
};
use crate::addr::{port_of, spec_parse_ip, spec_parse_socket_v4, spec_parse_socket_v6, IpAddr};
use crate::target::{spec_connect_addr, spec_display_name, spec_parse_target, TargetView};
use crate::diag::{
    spec_exit_code, spec_root_cause, spec_verdict_line, stage_number, stage_passed, stage_rank, DiagReport,
    Stage,
};
use crate::dns::{
    encode_labels, query_header, query_trailer, spec_classify_dns, spec_parse_response, spec_query,
    DnsVerdict, QueryOutcome,
};
use crate::net::{IoError, IoErrorKind};
use crate::check::{seconds_text, spec_row, tenths_of_millis, CheckOutcome};
use crate::text::{digits_value, pad_zeros, repeat_char};
use crate::run::{spec_all_passed, spec_attempt_banner, spec_should_retry};
use crate::addr::spec_is_unspecified;
use crate::gateway::{linux_route_gateway, macos_route_gateway, spec_parse_linux, spec_parse_macos};
use crate::text::{collect_some, lemma_first_some_skip, lines, starts_with, words};
use crate::addr::ip_text;
use crate::dns::{spec_query_outcome, DNS_QUERY_ID};
use crate::checks::{spec_classify_captive, spec_classify_http, HttpError};
use crate::dns::{resolv_conf_server, scutil_server, spec_parse_resolv_conf, spec_parse_scutil};

verus! {

/// The root cause is the first failed stage in ladder order: it failed,
/// every stage examined before it passed, and there is none exactly when
/// every stage passed.
pub proof fn law_root_cause_is_first_failure(r: DiagReport)
    ensures
        spec_root_cause(r) is None <==> (forall|s: Stage| #[trigger] stage_passed(r, s)),
        spec_root_cause(r) matches Some(s) ==> !stage_passed(r, s) && (forall|t: Stage|
            #[trigger] stage_rank(t) < stage_rank(s) ==> stage_passed(r, t)),
{
    if spec_root_cause(r) is None {
        assert forall|s: Stage| #[trigger] stage_passed(r, s) by {
            match s {
                Stage::LocalIp => {},
                Stage::Gateway => {},
                Stage::Internet => {},
                Stage::Dns => {},
                Stage::Application => {},
                Stage::CaptivePortal => {},
            }
        }
    } else {
        assert(!stage_passed(r, spec_root_cause(r)->0));
    }
}

/// The exit code is 0 exactly when every stage passed; otherwise it is the
/// number (1 to 6) of the first failed stage.
pub proof fn law_exit_code_names_first_failure(r: DiagReport)
    ensures
        (spec_exit_code(spec_root_cause(r)) == 0) <==> (forall|s: Stage| #[trigger] stage_passed(r, s)),
        spec_root_cause(r) matches Some(s) ==> spec_exit_code(spec_root_cause(r)) == stage_number(s)
            && 1 <= stage_number(s) <= 6,
{
    law_root_cause_is_first_failure(r);
}

/// The verdict of a failure names the root-cause stage by the number that
/// is also the exit code: it starts `корень: [n]`.
pub proof fn law_verdict_names_exit_code(s: Stage)
    ensures
        spec_verdict_line(Some(s)).take(11) == "корень: ["@ + decimal(spec_exit_code(Some(s)) as nat) + "]"@,
{
    reveal_strlit("корень: [");
    reveal_strlit("]");
    reveal_strlit("корень: [1] нет локального IP — линк/DHCP не выдал адрес");
    reveal_strlit("корень: [2] шлюз недостижим — проблема в локальной сети/роутере");
    reveal_strlit("корень: [3] нет выхода в интернет — публичный IP недостижим (маршрут/ISP)");
    reveal_strlit("корень: [4] DNS не работает — имена не резолвятся");
    reveal_strlit("корень: [5] уровень приложения — TLS/HTTP до цели не отвечает");
    reveal_strlit("корень: [6] captive portal — сеть требует авторизации");
    let line = spec_verdict_line(Some(s));
    let want = "корень: ["@ + decimal(spec_exit_code(Some(s)) as nat) + "]"@;
    assert(line.take(11) =~= want);
}

/// A refused or reset connection proves the host reachable: the gateway and
/// internet stages pass on it, with no error text.
pub proof fn law_refusal_is_reachable<T>(e: IoError)
    requires
        e.kind == IoErrorKind::ConnectionRefused || e.kind == IoErrorKind::ConnectionReset,
    ensures
        spec_reachable(Err::<T, IoError>(e)) == (true, None::<Seq<char>>),
        spec_connected(Err::<T, IoError>(e)).0 == false,
{
}

/// A query is never read as a reply: its QR bit is 0.
pub proof fn law_query_is_not_a_reply(name: Seq<u8>, id: u16)
    ensures
        spec_parse_response(spec_query(name, id)) is None,
{
    let q = spec_query(name, id);
    assert(q[2] == 0x01u8);
}

} // verus!

verus! {

proof fn lemma_octet_of_decimal(v: u8)
    ensures
        octet_of(decimal(v as nat)) == Some(v),
        !decimal(v as nat).contains('.'),
        !decimal(v as nat).contains(':'),
{
    lemma_decimal(v as nat);
    lemma_digits_exclude(decimal(v as nat), '.');
    lemma_digits_exclude(decimal(v as nat), ':');
}

/// The dotted-decimal text of an address reads back as that address.
pub proof fn law_ipv4_text_parses_back(a: [u8; 4])
    ensures
        spec_parse_ipv4(ipv4_text(a)) == Some(a),
{
    let d0 = decimal(a[0] as nat);
    let d1 = decimal(a[1] as nat);
    let d2 = decimal(a[2] as nat);
    let d3 = decimal(a[3] as nat);
    lemma_octet_of_decimal(a[0]);
    lemma_octet_of_decimal(a[1]);
    lemma_octet_of_decimal(a[2]);
    lemma_octet_of_decimal(a[3]);
    let r2 = d2 + seq!['.'] + d3;
    let r1 = d1 + seq!['.'] + r2;
    assert(ipv4_text(a) =~= d0 + seq!['.'] + r1);
    lemma_split_concat(d0, '.', r1);
    lemma_split_concat(d1, '.', r2);
    lemma_split_concat(d2, '.', d3);
    lemma_split_without(d3, '.');
    assert(split_on(ipv4_text(a), '.') =~= seq![d0, d1, d2, d3]);
    assert(spec_parse_ipv4(ipv4_text(a))->0 =~= a);
}

proof fn lemma_octet_is_decimal(p: Seq<char>)
    requires
        octet_of(p) is Some,
    ensures
        p == decimal(octet_of(p)->0 as nat),
{
    lemma_decimal_unique(p);
}

/// Dotted-decimal text that reads as an address is that address's text:
/// every address has exactly one accepted spelling.
pub proof fn law_ipv4_text_is_unique(s: Seq<char>)
    requires
        spec_parse_ipv4(s) is Some,
    ensures
        s == ipv4_text(spec_parse_ipv4(s)->0),
{
    let parts = split_on(s, '.');
    lemma_join_split(s, '.');
    lemma_octet_is_decimal(parts[0]);
    lemma_octet_is_decimal(parts[1]);
    lemma_octet_is_decimal(parts[2]);
    lemma_octet_is_decimal(parts[3]);
    assert(parts.drop_first().drop_first().drop_first() =~= seq![parts[3]]);
    assert(parts.drop_first().drop_first() =~= seq![parts[2], parts[3]]);
    assert(parts.drop_first() =~= seq![parts[1], parts[2], parts[3]]);
    let a = spec_parse_ipv4(s)->0;
    let p1 = parts.drop_first();
    let p2 = p1.drop_first();
    let p3 = p2.drop_first();
    assert(join_with(p3, '.') == parts[3]);
    assert(join_with(p2, '.') == parts[2] + seq!['.'] + join_with(p3, '.'));
    assert(join_with(p1, '.') == parts[1] + seq!['.'] + join_with(p2, '.'));
    assert(join_with(parts, '.') == parts[0] + seq!['.'] + join_with(p1, '.'));
    assert(join_with(parts, '.') =~= ipv4_text(a));
}

} // verus!

verus! {

/// The standard text of an IPv6 address reads back as that address.
pub proof fn law_ipv6_text_parses_back(g: [u16; 8])
    ensures
        spec_parse_ipv6(ipv6_text(g)) == Some(g),
{
    if is_v4_mapped(g) {
        lemma_mapped_text_parses_back(g);
    } else if longest_zero_run(g@, 0) > 1 {
        lemma_compressed_text_parses_back(g);
    } else {
        lemma_groups_text(g@);
        lemma_fields_of_groups_text(g@);
        lemma_no_double_colon(ipv6_text(g));
        assert(to_groups(g@) =~= g);
    }
}

proof fn lemma_mapped_text_parses_back(g: [u16; 8])
    requires
        is_v4_mapped(g),
    ensures
        spec_parse_ipv6(ipv6_text(g)) == Some(g),
{
    let s = ipv6_text(g);
    let o = octets_of(g[6], g[7]);
    let v4 = ipv4_text(o);
    reveal_strlit("::ffff:");
    let ffff = seq!['f', 'f', 'f', 'f'];
    assert(s =~= seq![':', ':'] + (ffff + seq![':'] + v4));
    lemma_double_colon_is(s, 0);
    let t = s.skip(2);
    assert(t =~= ffff + seq![':'] + v4);
    lemma_ipv4_text_chars(o);
    lemma_split_concat(ffff, ':', v4);
    lemma_split_without(v4, ':');
    let parts = split_on(t, ':');
    assert(parts =~= seq![ffff, v4]);
    law_ipv4_text_parses_back(o);
    assert(parts.last() == v4);
    assert(parts.drop_last() =~= seq![ffff]);
    lemma_ffff_text();
    lemma_group_of_hex(0xffff);
    lemma_groups_of_single(ffff);
    let tg = seq![0xffffu16] + words_of(o);
    assert(fields_of(parts) == Some(tg));
    assert(words_of(o)[0] == g[6]);
    assert(words_of(o)[1] == g[7]);
    let all = Seq::<u16>::empty() + zero_groups(5) + tg;
    assert(to_groups(all) =~= g);
}

proof fn lemma_ffff_text()
    ensures
        hex_text(0xffffnat) == seq!['f', 'f', 'f', 'f'],
{
    reveal_with_fuel(hex_text, 5);
    assert(hex_text(0xffffnat) =~= seq!['f', 'f', 'f', 'f']);
}

/// In `h :: t`, where `h` is empty or colon-separated, the first `::`
/// follows `h`.
proof fn lemma_first_double_colon(h: Seq<char>, t: Seq<char>)
    requires
        h.len() == 0 || colon_separated(h),
    ensures
        double_colon(h + seq![':', ':'] + t) == h.len(),
        (h + seq![':', ':'] + t).take(h.len() as int) == h,
        (h + seq![':', ':'] + t).skip(h.len() as int + 2) == t,
{
    let s = h + seq![':', ':'] + t;
    let j = h.len() as int;
    assert forall|k: int| 0 <= k && k + 1 < s.len() && (j < 0 || k < j) implies !(#[trigger] s[k] == ':' && s[k + 1] == ':') by {
        assert(s[k] == h[k]);
        if k + 1 < j {
            assert(s[k + 1] == h[k + 1]);
        } else {
            assert(h[k] == h.last());
        }
    }
    lemma_double_colon_is(s, j);
    assert(s.take(j) =~= h);
    assert(s.skip(j + 2) =~= t);
}

/// The groups around a compressed run read back from their texts.
proof fn lemma_side_groups(gs: Seq<u16>, allow_v4: bool)
    ensures
        (if groups_text(gs).len() == 0 {
            Some(Seq::<u16>::empty())
        } else if allow_v4 {
            fields_of(split_on(groups_text(gs), ':'))
        } else {
            groups_of(split_on(groups_text(gs), ':'))
        }) == Some(gs),
        groups_text(gs).len() == 0 || colon_separated(groups_text(gs)),
{
    if gs.len() > 0 {
        lemma_groups_text(gs);
        lemma_fields_of_groups_text(gs);
    } else {
        assert(groups_text(gs) =~= Seq::<char>::empty());
        assert(gs =~= Seq::<u16>::empty());
    }
}

#[verifier::rlimit(40)]
proof fn lemma_compressed_text_parses_back(g: [u16; 8])
    requires
        !is_v4_mapped(g),
        longest_zero_run(g@, 0) > 1,
    ensures
        spec_parse_ipv6(ipv6_text(g)) == Some(g),
{
    let m = longest_zero_run(g@, 0);
    let st = first_run_of(g@, 0, m);
    lemma_first_run_bounds(g@, 0, m);
    let head = g@.take(st);
    let tail = g@.skip(st + m);
    let ht = groups_text(head);
    let tt = groups_text(tail);
    let s = ipv6_text(g);
    assert(s == ht + seq![':', ':'] + tt);
    lemma_side_groups(head, false);
    lemma_side_groups(tail, true);
    lemma_first_double_colon(ht, tt);
    assert forall|i: int| st <= i < st + m implies #[trigger] g@[i] == 0 by {
        lemma_zero_run_zeros(g@, st, i - st);
    }
    let all = head + zero_groups((8 - head.len() - tail.len()) as nat) + tail;
    assert(to_groups(all) =~= g);
}

} // verus!

verus! {

/// Dotted-decimal text holds digits and dots only.
pub proof fn lemma_ipv4_text_chars(a: [u8; 4])
    ensures
        !ipv4_text(a).contains(':'),
        forall|i: int| 0 <= i < ipv4_text(a).len() ==> is_digit(#[trigger] ipv4_text(a)[i]) || ipv4_text(a)[i] == '.',
        ipv4_text(a).len() >= 1 && is_digit(ipv4_text(a)[0]) && is_digit(ipv4_text(a).last()),
{
    let d0 = decimal(a[0] as nat);
    let d1 = decimal(a[1] as nat);
    let d2 = decimal(a[2] as nat);
    let d3 = decimal(a[3] as nat);
    lemma_decimal(a[0] as nat);
    lemma_decimal(a[1] as nat);
    lemma_decimal(a[2] as nat);
    lemma_decimal(a[3] as nat);
    let s = ipv4_text(a);
    assert forall|i: int| 0 <= i < s.len() implies is_digit(#[trigger] s[i]) || s[i] == '.' by {
        let l0 = d0.len() as int;
        let l1 = d1.len() as int;
        let l2 = d2.len() as int;
        if i < l0 {
            assert(s[i] == d0[i]);
        } else if i == l0 {
        } else if i < l0 + 1 + l1 {
            assert(s[i] == d1[i - l0 - 1]);
        } else if i == l0 + 1 + l1 {
        } else if i < l0 + l1 + 2 + l2 {
            assert(s[i] == d2[i - l0 - l1 - 2]);
        } else if i == l0 + l1 + 2 + l2 {
        } else {
            assert(s[i] == d3[i - l0 - l1 - l2 - 3]);
        }
    }
    assert(s[0] == d0[0]);
    assert(s.last() == d3.last());
    assert(is_digit(d3[d3.len() - 1]));
    if s.contains(':') {
        let k = choose|k: int| 0 <= k < s.len() && s[k] == ':';
        assert(is_digit(s[k]) || s[k] == '.');
    }
}

} // verus!

verus! {

/// Text that neither starts nor ends with white space is its own trim.
proof fn lemma_trim_noop(s: Seq<char>)
    requires
        s.len() > 0,
        !is_ws(s[0]),
        !is_ws(s.last()),
    ensures
        trim(s) == s,
{
    lemma_leading_ws_is(s, 0);
    assert(trim_start(s) =~= s);
    lemma_trailing_ws_is(s, 0);
    assert(trim(s) =~= s);
}

/// The first `c` of `p c r`, where `p` has none, follows `p`.
proof fn lemma_index_of_after(p: Seq<char>, c: char, r: Seq<char>)
    requires
        !p.contains(c),
    ensures
        index_of(p + seq![c] + r, c) == p.len(),
        (p + seq![c] + r).take(p.len() as int) == p,
        (p + seq![c] + r).skip(p.len() as int + 1) == r,
{
    let s = p + seq![c] + r;
    assert forall|k: int| 0 <= k < s.len() && (p.len() < 0 || k < p.len()) implies s[k] != c by {
        assert(s[k] == p[k]);
    }
    lemma_index_of_is(s, c, p.len() as int);
    assert(s.take(p.len() as int) =~= p);
    assert(s.skip(p.len() as int + 1) =~= r);
}

/// The decimal text of a port reads back as the port, as a socket port and
/// as `u16::from_str` does.
proof fn lemma_port_text(p: u16)
    ensures
        port_of(decimal(p as nat)) == Some(p),
        u16_from_text(decimal(p as nat)) == Some(p),
        !decimal(p as nat).contains(':'),
        !decimal(p as nat).contains('.'),
        !is_ws(decimal(p as nat).last()),
        is_digit(decimal(p as nat)[0]),
{
    let d = decimal(p as nat);
    lemma_decimal(p as nat);
    lemma_digits_exclude(d, ':');
    lemma_digits_exclude(d, '.');
    assert(is_digit(d[d.len() - 1]));
    assert(is_digit(d[0]));
}

/// Text accepted as IPv4 holds digits and dots only.
proof fn lemma_ipv4_chars(x: Seq<char>)
    requires
        spec_parse_ipv4(x) is Some,
    ensures
        !x.contains(':'),
        x.len() > 0 && is_digit(x[0]),
{
    law_ipv4_text_is_unique(x);
    lemma_ipv4_text_chars(spec_parse_ipv4(x)->0);
}

proof fn lemma_groups_of_len(parts: Seq<Seq<char>>)
    ensures
        groups_of(parts) matches Some(v) ==> v.len() == parts.len(),
    decreases parts.len(),
{
    if parts.len() > 0 {
        lemma_groups_of_len(parts.drop_first());
    }
}

/// Without `::`, text of fewer than seven colon-separated parts is no IPv6
/// address.
proof fn lemma_ipv6_needs_parts(x: Seq<char>)
    requires
        double_colon(x) < 0,
        split_on(x, ':').len() < 7,
    ensures
        spec_parse_ipv6(x) is None,
{
    let parts = split_on(x, ':');
    lemma_groups_of_len(parts);
    lemma_groups_of_len(parts.drop_last());
}

/// Text without a colon splits into itself, and has no `::`.
proof fn lemma_no_colon(x: Seq<char>)
    requires
        !x.contains(':'),
    ensures
        double_colon(x) < 0,
        split_on(x, ':') == seq![x],
{
    lemma_split_without(x, ':');
    assert forall|k: int| 0 <= k && k + 1 < x.len() && (-1 < 0 || k < -1) implies !(#[trigger] x[k] == ':' && x[k + 1] == ':') by {
        if x[k] == ':' {
            assert(x.contains(':'));
        }
    }
    lemma_double_colon_is(x, -1);
}

/// The standard text of an IPv6 address holds hex digits, colons and dots.
proof fn lemma_ipv6_text_chars(g: [u16; 8])
    ensures
        forall|i: int| 0 <= i < ipv6_text(g).len() ==> #[trigger] is_hex_digit(ipv6_text(g)[i]) || ipv6_text(g)[i] == ':'
            || ipv6_text(g)[i] == '.',
        ipv6_text(g).len() > 0,
{
    let s = ipv6_text(g);
    if is_v4_mapped(g) {
        reveal_strlit("::ffff:");
        let v4 = ipv4_text(octets_of(g[6], g[7]));
        lemma_ipv4_text_chars(octets_of(g[6], g[7]));
        let pre = seq![':', ':', 'f', 'f', 'f', 'f', ':'];
        assert(s =~= pre + v4);
        assert forall|i: int| 0 <= i < s.len() implies #[trigger] is_hex_digit(s[i]) || s[i] == ':' || s[i] == '.' by {
            if i >= 7 {
                assert(s[i] == v4[i - 7]);
            }
        }
    } else {
        let m = longest_zero_run(g@, 0);
        if m > 1 {
            let st = first_run_of(g@, 0, m);
            let ht = groups_text(g@.take(st));
            let tt = groups_text(g@.skip(st + m));
            lemma_side_groups(g@.take(st), false);
            lemma_side_groups(g@.skip(st + m), true);
            assert(s == ht + seq![':', ':'] + tt);
            assert forall|i: int| 0 <= i < s.len() implies #[trigger] is_hex_digit(s[i]) || s[i] == ':' || s[i] == '.' by {
                if i < ht.len() {
                    assert(s[i] == ht[i]);
                } else if i >= ht.len() + 2 {
                    assert(s[i] == tt[i - ht.len() - 2]);
                }
            }
        } else {
            lemma_groups_text(g@);
        }
    }
}

/// An IP target's connect address (`a.b.c.d:port`, `[ipv6]:port`) parses
/// back as that target.
pub proof fn law_ip_target_text_parses_back(addr: IpAddr, port: u16)
    ensures
        spec_parse_target(spec_connect_addr(TargetView::Ip { addr, port })) == Some(
            TargetView::Ip { addr, port },
        ),
{
    match addr {
        IpAddr::V4(a) => lemma_v4_socket_text(a, port),
        IpAddr::V6(g) => lemma_v6_socket_text(g, port),
    }
}

proof fn lemma_v4_socket_text(a: [u8; 4], port: u16)
    ensures
        spec_parse_target(spec_connect_addr(TargetView::Ip { addr: IpAddr::V4(a), port })) == Some(
            TargetView::Ip { addr: IpAddr::V4(a), port },
        ),
{
    let s = spec_connect_addr(TargetView::Ip { addr: IpAddr::V4(a), port });
    let d = decimal(port as nat);
    lemma_port_text(port);
    let v4 = ipv4_text(a);
    lemma_ipv4_text_chars(a);
    law_ipv4_text_parses_back(a);
    assert(s == v4 + seq![':'] + d);
    lemma_index_of_after(v4, ':', d);
    assert(s[0] == v4[0]);
    assert(s.last() == d.last());
    lemma_trim_noop(s);
}

/// `[ipv6]:port` is not read in the IPv4 form.
proof fn lemma_bracket_not_v4(s: Seq<char>)
    requires
        s.len() > 0,
        s[0] == '[',
    ensures
        spec_parse_socket_v4(s) is None,
{
    let k = index_of(s, ':');
    lemma_index_of(s, ':');
    if k >= 0 {
        let x = s.take(k);
        if spec_parse_ipv4(x) is Some {
            lemma_ipv4_chars(x);
            assert(x[0] == '[');
        }
    }
}

#[verifier::rlimit(40)]
proof fn lemma_v6_socket_text(g: [u16; 8], port: u16)
    ensures
        spec_parse_target(spec_connect_addr(TargetView::Ip { addr: IpAddr::V6(g), port })) == Some(
            TargetView::Ip { addr: IpAddr::V6(g), port },
        ),
{
    let s = spec_connect_addr(TargetView::Ip { addr: IpAddr::V6(g), port });
    let d = decimal(port as nat);
    lemma_port_text(port);
    let v6 = ipv6_text(g);
    lemma_ipv6_text_chars(g);
    law_ipv6_text_parses_back(g);
    let after = seq![':'] + d;
    let pre = seq!['['] + v6;
    assert(s =~= pre + seq![']'] + after);
    lemma_bracket_not_v4(s);
    assert(!pre.contains(']')) by {
        if pre.contains(']') {
            let i = choose|i: int| 0 <= i < pre.len() && pre[i] == ']';
            if i > 0 {
                assert(pre[i] == v6[i - 1]);
                assert(is_hex_digit(v6[i - 1]) || v6[i - 1] == ':' || v6[i - 1] == '.');
            } else {
                assert(pre[0] == '[');
            }
        }
    }
    lemma_index_of_after(pre, ']', after);
    let j = index_of(s, ']');
    assert(j == v6.len() + 1);
    assert(s.subrange(1, j) =~= v6);
    assert(!v6.contains('%')) by {
        if v6.contains('%') {
            let i = choose|i: int| 0 <= i < v6.len() && v6[i] == '%';
            assert(is_hex_digit(v6[i]) || v6[i] == ':' || v6[i] == '.');
        }
    }
    lemma_index_of_is(v6, '%', -1);
    assert(s.skip(j + 1) =~= after);
    assert(after.skip(1) =~= d);
    assert(s.last() == d.last());
    lemma_trim_noop(s);
}

/// `host:port` with a colon-free host is no bracketed socket address.
#[verifier::rlimit(20)]
proof fn lemma_host_not_v6_socket(host: Seq<char>, d: Seq<char>)
    requires
        host.len() > 0,
        !host.contains(':'),
        all_digits(d),
    ensures
        spec_parse_socket_v6(host + seq![':'] + d) is None,
{
    let s = host + seq![':'] + d;
    if s[0] == '[' && index_of(s, ']') >= 0 {
        let j = index_of(s, ']');
        lemma_index_of(s, ']');
        if j + 1 < s.len() && s[j + 1] == ':' {
            assert(j + 1 == host.len()) by {
                if j + 1 < host.len() {
                    assert(s[j + 1] == host[j + 1]);
                    assert(host.contains(':'));
                } else if j >= host.len() {
                    assert(s[host.len() as int] == ':');
                    assert(j > host.len());
                    assert(s[j] == d[j - host.len() - 1]);
                    assert(is_digit(d[j - host.len() - 1]));
                }
            }
            let inner = s.subrange(1, j);
            assert(!inner.contains(':')) by {
                if inner.contains(':') {
                    let i = choose|i: int| 0 <= i < inner.len() && inner[i] == ':';
                    assert(inner[i] == host[i + 1]);
                }
            }
            let p = index_of(inner, '%');
            lemma_index_of(inner, '%');
            let addr = if p >= 0 {
                inner.take(p)
            } else {
                inner
            };
            assert(!addr.contains(':')) by {
                if addr.contains(':') {
                    let i = choose|i: int| 0 <= i < addr.len() && addr[i] == ':';
                    assert(addr[i] == inner[i]);
                }
            }
            lemma_no_colon(addr);
            lemma_ipv6_needs_parts(addr);
        }
    }
}

/// `host:port` with a colon-free host is no bare IP address.
proof fn lemma_host_not_ip(host: Seq<char>, port: u16)
    requires
        host.len() > 0,
        !host.contains(':'),
    ensures
        spec_parse_ip(host + seq![':'] + decimal(port as nat)) is None,
{
    let d = decimal(port as nat);
    let s = host + seq![':'] + d;
    lemma_port_text(port);
    if spec_parse_ipv4(s) is Some {
        lemma_ipv4_chars(s);
        assert(s[host.len() as int] == ':');
    }
    lemma_split_concat(host, ':', d);
    lemma_no_colon(d);
    assert(split_on(s, ':') =~= seq![host, d]);
    assert forall|k: int| 0 <= k && k + 1 < s.len() && (-1 < 0 || k < -1) implies !(#[trigger] s[k] == ':' && s[k + 1] == ':') by {
        if s[k] == ':' && s[k + 1] == ':' {
            if k < host.len() {
                assert(s[k] == host[k]);
            } else {
                assert(s[k + 1] == d[0]);
            }
        }
    }
    lemma_double_colon_is(s, -1);
    lemma_ipv6_needs_parts(s);
}

/// A host target's name `host:port` parses back as that target, for every
/// host that is non-empty, has no colon, does not start with white space
/// and is no IPv4 address.
pub proof fn law_host_target_text_parses_back(host: Seq<char>, port: u16)
    requires
        host.len() > 0,
        !host.contains(':'),
        !is_ws(host[0]),
        spec_parse_ipv4(host) is None,
    ensures
        spec_parse_target(spec_display_name(TargetView::Host { host, port })) == Some(
            TargetView::Host { host, port },
        ),
{
    let d = decimal(port as nat);
    lemma_port_text(port);
    let s = host + seq![':'] + d;
    assert(spec_display_name(TargetView::Host { host, port }) == s);
    assert(s[0] == host[0]);
    assert(s.last() == d.last());
    lemma_trim_noop(s);
    lemma_index_of_after(host, ':', d);
    assert(spec_parse_socket_v4(s) is None);
    lemma_decimal(port as nat);
    lemma_host_not_v6_socket(host, d);
    lemma_host_not_ip(host, port);
    assert forall|k: int| host.len() < k < s.len() implies s[k] != ':' by {
        assert(s[k] == d[k - host.len() - 1]);
    }
    lemma_last_index_of_is(s, ':', host.len() as int);
    lemma_index_of_is(host, ':', -1);
}

} // verus!

verus! {

/// The bytes a label list takes in QNAME: a length byte and the bytes of
/// each non-empty label.
pub open spec fn labels_size(labels: Seq<Seq<u8>>) -> nat
    decreases labels.len(),
{
    if labels.len() == 0 {
        0
    } else {
        (if labels[0].len() == 0 {
            0
        } else {
            labels[0].len() + 1
        }) + labels_size(labels.drop_first())
    }
}

proof fn lemma_encode_labels_len(labels: Seq<Seq<u8>>)
    ensures
        encode_labels(labels).len() == labels_size(labels),
    decreases labels.len(),
{
    if labels.len() > 0 {
        lemma_encode_labels_len(labels.drop_first());
    }
}

/// A query is its 12-byte header (the id big-endian first), the labels of
/// the name each with its length byte, and five closing bytes.
pub proof fn law_query_layout(name: Seq<u8>, id: u16)
    ensures
        spec_query(name, id).len() == 17 + labels_size(split_on(name, 0x2Eu8)),
        spec_query(name, id).take(12) == query_header(id),
        spec_query(name, id)[0] as int * 256 + spec_query(name, id)[1] as int == id as int,
        spec_query(name, id).skip(spec_query(name, id).len() - 5) == seq![0u8, 0u8, 1u8, 0u8, 1u8],
{
    let q = spec_query(name, id);
    let labels = encode_labels(split_on(name, 0x2Eu8));
    lemma_encode_labels_len(split_on(name, 0x2Eu8));
    assert(q.take(12) =~= query_header(id));
    assert(q.skip(q.len() - 5) =~= query_trailer());
}

/// The DNS verdicts are told apart by what the resolvers said: healthy
/// exactly when a system resolver resolved the name; "system broken" when
/// only a public one did; "blocked" only when every resolver was silent;
/// NXDOMAIN otherwise.
pub proof fn law_dns_verdicts(system: Seq<QueryOutcome>, public: Seq<QueryOutcome>)
    ensures
        (spec_classify_dns(system, public) == DnsVerdict::Healthy) <==> system.contains(QueryOutcome::Resolved),
        (spec_classify_dns(system, public) == DnsVerdict::SystemBrokenPublicWorks) <==> (!system.contains(
            QueryOutcome::Resolved,
        ) && public.contains(QueryOutcome::Resolved)),
        (spec_classify_dns(system, public) == DnsVerdict::Blocked) <==> (forall|i: int|
            0 <= i < (system + public).len() ==> #[trigger] (system + public)[i] == QueryOutcome::NoResponse),
{
    let all = system + public;
    if !system.contains(QueryOutcome::Resolved) && !public.contains(QueryOutcome::Resolved) && !(forall|i: int|
        0 <= i < all.len() ==> #[trigger] all[i] == QueryOutcome::NoResponse) {
        let k = choose|k: int| 0 <= k < all.len() && all[k] != QueryOutcome::NoResponse;
        if k < system.len() {
            assert(all[k] == system[k]);
        } else {
            assert(all[k] == public[k - system.len()]);
        }
        assert(all[k] == QueryOutcome::NxDomain);
    }
    if forall|i: int| 0 <= i < all.len() ==> #[trigger] all[i] == QueryOutcome::NoResponse {
        if system.contains(QueryOutcome::Resolved) {
            let k = choose|k: int| 0 <= k < system.len() && system[k] == QueryOutcome::Resolved;
            assert(all[k] == system[k]);
        }
        if public.contains(QueryOutcome::Resolved) {
            let k = choose|k: int| 0 <= k < public.len() && public[k] == QueryOutcome::Resolved;
            assert(all[k + system.len()] == public[k]);
        }
    }
}

} // verus!

verus! {

/// Leading white space before text that starts and ends with other
/// characters is exactly what trimming removes.
proof fn lemma_trim_indented(w: Seq<char>, s: Seq<char>)
    requires
        forall|i: int| 0 <= i < w.len() ==> is_ws(#[trigger] w[i]),
        s.len() > 0,
        !is_ws(s[0]),
        !is_ws(s.last()),
    ensures
        trim(w + s) == s,
{
    let l = w + s;
    assert forall|k: int| 0 <= k < w.len() implies is_ws(#[trigger] l[k]) by {
        assert(l[k] == w[k]);
    }
    assert(l[w.len() as int] == s[0]);
    lemma_leading_ws_is(l, w.len() as int);
    assert(trim_start(l) =~= s);
    lemma_trailing_ws_is(s, 0);
    assert(trim(l) =~= s);
}

/// A `gateway: <a>` line of `route -n get default` output names `a`,
/// whatever white space it is indented by, follows the colon or ends it.
pub proof fn law_macos_gateway_line(w1: Seq<char>, w2: Seq<char>, w3: Seq<char>, a: [u8; 4])
    requires
        forall|i: int| 0 <= i < w1.len() ==> is_ws(#[trigger] w1[i]),
        forall|i: int| 0 <= i < w2.len() ==> is_ws(#[trigger] w2[i]),
        forall|i: int| 0 <= i < w3.len() ==> is_ws(#[trigger] w3[i]),
    ensures
        macos_route_gateway(w1 + "gateway:"@ + w2 + ipv4_text(a) + w3) == Some(a),
{
    reveal_strlit("gateway:");
    let t = ipv4_text(a);
    lemma_ipv4_text_chars(a);
    let g = "gateway:"@ + w2 + t;
    assert(g[0] == 'g');
    assert(g.last() == t.last());
    assert(w1 + "gateway:"@ + w2 + t + w3 =~= w1 + g + w3);
    lemma_trim_padded(w1, g, w3);
    assert(g.take(8) =~= "gateway:"@);
    assert(g.skip(8) =~= w2 + t + Seq::<char>::empty());
    lemma_trim_padded(w2, t, Seq::<char>::empty());
    law_ipv4_text_parses_back(a);
}

/// In `route -n get default` output, a `gateway: <a>` line, however
/// indented, gives `a` when no earlier line is a `gateway:` line.
pub proof fn law_macos_first_gateway_line(output: Seq<char>, k: int, w: Seq<char>, a: [u8; 4])
    requires
        0 <= k < lines(output).len(),
        lines(output)[k] == w + "gateway: "@ + ipv4_text(a),
        forall|i: int| 0 <= i < w.len() ==> is_ws(#[trigger] w[i]),
        forall|j: int| 0 <= j < k ==> !starts_with(trim(#[trigger] lines(output)[j]), "gateway:"@),
    ensures
        spec_parse_macos(output) == Some(a),
{
    let ls = lines(output);
    let f = |l: Seq<char>| macos_route_gateway(l);
    assert forall|j: int| 0 <= j < k implies f(#[trigger] ls[j]) is None by {}
    lemma_first_some_skip(ls, f, k);
    reveal_strlit("gateway: ");
    reveal_strlit("gateway:");
    assert(w + "gateway: "@ + ipv4_text(a) =~= w + "gateway:"@ + seq![' '] + ipv4_text(a) + Seq::<char>::empty());
    assert(is_ws(seq![' '][0]));
    law_macos_gateway_line(w, seq![' '], Seq::<char>::empty(), a);
    assert(ls.skip(k)[0] == ls[k]);
}

/// Output without a `gateway:` line (after trimming) names no gateway.
pub proof fn law_macos_needs_gateway_line(output: Seq<char>)
    requires
        forall|j: int| 0 <= j < lines(output).len() ==> !starts_with(trim(#[trigger] lines(output)[j]), "gateway:"@),
    ensures
        spec_parse_macos(output) is None,
{
    let ls = lines(output);
    let f = |l: Seq<char>| macos_route_gateway(l);
    assert forall|j: int| 0 <= j < ls.len() implies f(#[trigger] ls[j]) is None by {}
    lemma_first_some_skip(ls, f, ls.len() as int);
    assert(ls.skip(ls.len() as int) =~= Seq::<Seq<char>>::empty());
}

/// A gateway comes only from a `default` route: when no line of `ip route`
/// output starts with the word `default`, there is none.
pub proof fn law_linux_needs_default_line(output: Seq<char>)
    requires
        forall|j: int|
            0 <= j < lines(output).len() ==> words(#[trigger] lines(output)[j]).len() == 0 || words(
                lines(output)[j],
            )[0] != "default"@,
    ensures
        spec_parse_linux(output) is None,
{
    let ls = lines(output);
    let f = |l: Seq<char>| linux_route_gateway(l);
    assert forall|j: int| 0 <= j < ls.len() implies f(#[trigger] ls[j]) is None by {}
    lemma_first_some_skip(ls, f, ls.len() as int);
    assert(ls.skip(ls.len() as int) =~= Seq::<Seq<char>>::empty());
}

/// The first `default` route of `ip route` output, of the form
/// `default ... via <a> ...`, gives `a`.
pub proof fn law_linux_default_via(output: Seq<char>, k: int, m: int, a: [u8; 4])
    requires
        0 <= k < lines(output).len(),
        1 <= m,
        m + 1 < words(lines(output)[k]).len(),
        words(lines(output)[k])[0] == "default"@,
        words(lines(output)[k])[m] == "via"@,
        forall|i: int| 1 <= i < m ==> #[trigger] words(lines(output)[k])[i] != "via"@,
        words(lines(output)[k])[m + 1] == ipv4_text(a),
        forall|j: int|
            0 <= j < k ==> words(#[trigger] lines(output)[j]).len() == 0 || words(lines(output)[j])[0]
                != "default"@,
    ensures
        spec_parse_linux(output) == Some(a),
{
    let ls = lines(output);
    let f = |l: Seq<char>| linux_route_gateway(l);
    assert forall|j: int| 0 <= j < k implies f(#[trigger] ls[j]) is None by {}
    lemma_first_some_skip(ls, f, k);
    assert(ls.skip(k)[0] == ls[k]);
    let ws = words(ls[k]);
    let rest = ws.skip(1);
    assert forall|i: int| 0 <= i < rest.len() && (m - 1 < 0 || i < m - 1) implies rest[i] != "via"@ by {
        assert(rest[i] == ws[i + 1]);
    }
    assert(rest[m - 1] == ws[m]);
    lemma_index_of_is(rest, "via"@, m - 1);
    law_ipv4_text_parses_back(a);
}

/// A reply header of at least 12 bytes whose QR bit (the top bit of byte 2)
/// is set is read whatever its other flags: the id from bytes 0-1, RCODE
/// from the low four bits of byte 3, ANCOUNT from bytes 6-7; anything
/// shorter, or with QR clear, is no reply.
pub proof fn law_reply_header_fields(buf: Seq<u8>)
    ensures
        buf.len() >= 12 && buf[2] >= 0x80 ==> (spec_parse_response(buf) matches Some(r) && r.id as int
            == buf[0] as int * 256 + buf[1] as int && r.rcode as int == buf[3] as int % 16 && r.ancount as int
            == buf[6] as int * 256 + buf[7] as int),
        buf.len() < 12 || buf[2] < 0x80 ==> spec_parse_response(buf) is None,
{
}

/// Two buffers of at least 12 bytes that agree on the id, the QR bit, the
/// RCODE bits and ANCOUNT read alike, whatever their other bytes and bits.
pub proof fn law_reply_reads_only_its_fields(b1: Seq<u8>, b2: Seq<u8>)
    requires
        b1.len() >= 12,
        b2.len() >= 12,
        b1[0] == b2[0],
        b1[1] == b2[1],
        (b1[2] >= 0x80) == (b2[2] >= 0x80),
        b1[3] % 16 == b2[3] % 16,
        b1[6] == b2[6],
        b1[7] == b2[7],
    ensures
        spec_parse_response(b1) == spec_parse_response(b2),
{
}

/// Only a refusal or a reset proves a host reachable: any other failed
/// connect fails the stage, with the error's text (none for a timeout).
pub proof fn law_only_refusal_is_reachable<T>(e: IoError)
    requires
        e.kind != IoErrorKind::ConnectionRefused,
        e.kind != IoErrorKind::ConnectionReset,
    ensures
        spec_reachable(Err::<T, IoError>(e)) == (false, if e.kind == IoErrorKind::TimedOut {
            None::<Seq<char>>
        } else {
            Some(e.message@)
        }),
{
}

/// A phase passes only if every check passed: one failed outcome, wherever
/// it stands, fails the phase.
pub proof fn law_one_failure_fails_phase(outcomes: Seq<CheckOutcome>, i: int)
    requires
        0 <= i < outcomes.len(),
        !outcomes[i].success,
    ensures
        !spec_all_passed(outcomes),
{
}

/// An empty phase passes, and adding an outcome keeps the phase passing
/// exactly when that outcome succeeded.
pub proof fn law_phase_passes_step(outcomes: Seq<CheckOutcome>, o: CheckOutcome)
    ensures
        spec_all_passed(Seq::<CheckOutcome>::empty()),
        spec_all_passed(outcomes.push(o)) == (spec_all_passed(outcomes) && o.success),
{
    let p = outcomes.push(o);
    if spec_all_passed(outcomes) && o.success {
        assert forall|i: int| 0 <= i < p.len() implies (#[trigger] p[i]).success by {
            if i < outcomes.len() {
                assert(p[i] == outcomes[i]);
            }
        }
    }
    if spec_all_passed(p) {
        assert(p[outcomes.len() as int] == o);
        assert forall|i: int| 0 <= i < outcomes.len() implies (#[trigger] outcomes[i]).success by {
            assert(p[i] == outcomes[i]);
        }
    }
}

} // verus!

verus! {

/// White space around text that starts and ends with other characters is
/// exactly what trimming removes.
proof fn lemma_trim_padded(w: Seq<char>, s: Seq<char>, v: Seq<char>)
    requires
        forall|i: int| 0 <= i < w.len() ==> is_ws(#[trigger] w[i]),
        forall|i: int| 0 <= i < v.len() ==> is_ws(#[trigger] v[i]),
        s.len() > 0,
        !is_ws(s[0]),
        !is_ws(s.last()),
    ensures
        trim(w + s + v) == s,
{
    let l = w + s + v;
    assert forall|k: int| 0 <= k < w.len() implies is_ws(#[trigger] l[k]) by {
        assert(l[k] == w[k]);
    }
    assert(l[w.len() as int] == s[0]);
    lemma_leading_ws_is(l, w.len() as int);
    let r = trim_start(l);
    assert(r =~= s + v);
    assert forall|k: int| r.len() - v.len() <= k < r.len() implies is_ws(#[trigger] r[k]) by {
        assert(r[k] == v[k - s.len()]);
    }
    assert(r[r.len() - v.len() - 1] == s.last());
    lemma_trailing_ws_is(r, v.len() as int);
    assert(trim(l) =~= s);
}

/// The standard text of an IPv6 address always holds a colon.
proof fn lemma_ipv6_text_has_colon(g: [u16; 8])
    ensures
        ipv6_text(g).contains(':'),
{
    let s = ipv6_text(g);
    if is_v4_mapped(g) {
        reveal_strlit("::ffff:");
        assert(s[0] == ':');
    } else {
        let m = longest_zero_run(g@, 0);
        if m > 1 {
            let st = first_run_of(g@, 0, m);
            let h = groups_text(g@.take(st));
            assert(s[h.len() as int] == ':');
        } else {
            let gs = g@;
            assert(groups_text(gs) == hex_text(gs[0] as nat) + seq![':'] + groups_text(gs.drop_first()));
            assert(s[hex_text(gs[0] as nat).len() as int] == ':');
        }
    }
}

/// The text of an address reads back as that address, and starts and ends
/// with no white space.
proof fn lemma_ip_text_parses_back(a: IpAddr)
    ensures
        spec_parse_ip(ip_text(a)) == Some(a),
        ip_text(a).len() > 0,
        !is_ws(ip_text(a)[0]),
        !is_ws(ip_text(a).last()),
{
    match a {
        IpAddr::V4(o) => {
            law_ipv4_text_parses_back(o);
            lemma_ipv4_text_chars(o);
        },
        IpAddr::V6(g) => {
            law_ipv6_text_parses_back(g);
            lemma_ipv6_text_chars(g);
            lemma_ipv6_text_has_colon(g);
            let s = ipv6_text(g);
            if spec_parse_ipv4(s) is Some {
                lemma_ipv4_chars(s);
            }
            assert(is_hex_digit(s[0]) || s[0] == ':' || s[0] == '.');
            assert(is_hex_digit(s[s.len() - 1]) || s[s.len() - 1] == ':' || s[s.len() - 1] == '.');
        },
    }
}

/// A `nameserver <a>` line of `/etc/resolv.conf` names `a`, whatever white
/// space surrounds the line and separates its two parts.
pub proof fn law_resolv_conf_line(w1: Seq<char>, w2: Seq<char>, w3: Seq<char>, a: IpAddr)
    requires
        forall|i: int| 0 <= i < w1.len() ==> is_ws(#[trigger] w1[i]),
        forall|i: int| 0 <= i < w2.len() ==> is_ws(#[trigger] w2[i]),
        forall|i: int| 0 <= i < w3.len() ==> is_ws(#[trigger] w3[i]),
    ensures
        resolv_conf_server(w1 + "nameserver"@ + w2 + ip_text(a) + w3) == Some(a),
{
    reveal_strlit("nameserver");
    let t = ip_text(a);
    lemma_ip_text_parses_back(a);
    let body = "nameserver"@ + w2 + t;
    assert(body[0] == 'n');
    assert(body.last() == t.last());
    assert(w1 + "nameserver"@ + w2 + t + w3 =~= w1 + body + w3);
    lemma_trim_padded(w1, body, w3);
    assert(body.take(10) =~= "nameserver"@);
    assert(body.skip(10) =~= w2 + t + Seq::<char>::empty());
    lemma_trim_padded(w2, t, Seq::<char>::empty());
}

/// `/etc/resolv.conf` text with no `nameserver` line names no resolver.
pub proof fn law_resolv_conf_needs_nameserver(text: Seq<char>)
    requires
        forall|j: int| 0 <= j < lines(text).len() ==> !starts_with(trim(#[trigger] lines(text)[j]), "nameserver"@),
    ensures
        spec_parse_resolv_conf(text).len() == 0,
{
    lemma_collect_none(lines(text), |l: Seq<char>| resolv_conf_server(l));
}

/// A `nameserver[n] : <a>` line of `scutil --dns` output names the IPv4
/// address `a`, whatever white space surrounds the line and follows the
/// colon.
pub proof fn law_scutil_line(w1: Seq<char>, x: Seq<char>, w2: Seq<char>, w3: Seq<char>, a: [u8; 4])
    requires
        forall|i: int| 0 <= i < w1.len() ==> is_ws(#[trigger] w1[i]),
        forall|i: int| 0 <= i < w2.len() ==> is_ws(#[trigger] w2[i]),
        forall|i: int| 0 <= i < w3.len() ==> is_ws(#[trigger] w3[i]),
    ensures
        scutil_server(w1 + "nameserver["@ + x + seq![':'] + w2 + ipv4_text(a) + w3) == Some(IpAddr::V4(a)),
{
    reveal_strlit("nameserver[");
    let t = ipv4_text(a);
    lemma_ipv4_text_chars(a);
    law_ipv4_text_parses_back(a);
    let body = "nameserver["@ + x + seq![':'] + w2 + t;
    assert(body[0] == 'n');
    assert(body.last() == t.last());
    assert(w1 + "nameserver["@ + x + seq![':'] + w2 + t + w3 =~= w1 + body + w3);
    lemma_trim_padded(w1, body, w3);
    let p: int = 11 + x.len() as int;
    assert(body[p] == ':');
    assert forall|k: int| p < k < body.len() implies body[k] != ':' by {
        if k < p + 1 + w2.len() {
            assert(body[k] == w2[k - p - 1]);
        } else {
            assert(body[k] == t[k - p - 1 - w2.len()]);
            assert(is_digit(t[k - p - 1 - w2.len()]) || t[k - p - 1 - w2.len()] == '.');
        }
    }
    lemma_last_index_of_is(body, ':', p);
    assert(body.take(11) =~= "nameserver["@);
    assert(body.skip(p + 1) =~= w2 + t + Seq::<char>::empty());
    lemma_trim_padded(w2, t, Seq::<char>::empty());
}

/// `scutil --dns` output with no `nameserver[` line names no resolver.
pub proof fn law_scutil_needs_nameserver(text: Seq<char>)
    requires
        forall|j: int| 0 <= j < lines(text).len() ==> !starts_with(trim(#[trigger] lines(text)[j]), "nameserver["@),
    ensures
        spec_parse_scutil(text).len() == 0,
{
    lemma_collect_none(lines(text), |l: Seq<char>| scutil_server(l));
}

proof fn lemma_collect_none<T>(ls: Seq<Seq<char>>, f: spec_fn(Seq<char>) -> Option<T>)
    requires
        forall|j: int| 0 <= j < ls.len() ==> f(#[trigger] ls[j]) is None,
    ensures
        collect_some(ls, f).len() == 0,
    decreases ls.len(),
{
    if ls.len() > 0 {
        assert(f(ls.last()) is None);
        assert forall|j: int| 0 <= j < ls.drop_last().len() implies f(#[trigger] ls.drop_last()[j]) is None by {
            assert(ls.drop_last()[j] == ls[j]);
        }
        lemma_collect_none(ls.drop_last(), f);
    }
}

/// White space around target text does not change how it reads.
pub proof fn law_target_ignores_surrounding_space(w1: Seq<char>, s: Seq<char>, w2: Seq<char>)
    requires
        forall|i: int| 0 <= i < w1.len() ==> is_ws(#[trigger] w1[i]),
        forall|i: int| 0 <= i < w2.len() ==> is_ws(#[trigger] w2[i]),
        s.len() > 0,
        !is_ws(s[0]),
        !is_ws(s.last()),
    ensures
        spec_parse_target(w1 + s + w2) == spec_parse_target(s),
{
    lemma_trim_padded(w1, s, w2);
    lemma_trim_noop(s);
}

/// Blank target text is refused.
pub proof fn law_blank_target_is_refused(w: Seq<char>)
    requires
        forall|i: int| 0 <= i < w.len() ==> is_ws(#[trigger] w[i]),
    ensures
        spec_parse_target(w) is None,
{
    lemma_leading_ws_is(w, w.len() as int);
    assert(trim_start(w).len() == 0);
}

} // verus!

verus! {

/// What a reply to a diagnostic query means, by its bytes: resolved only
/// for a reply to our id (0x7A7A) with RCODE 0 and at least one answer;
/// NXDOMAIN for any reply with RCODE 3; anything else, or no reply, is no
/// response.
pub proof fn law_query_outcome(buf: Seq<u8>)
    ensures
        spec_query_outcome(None) == QueryOutcome::NoResponse,
        buf.len() < 12 || buf[2] < 0x80 ==> spec_query_outcome(Some(buf)) == QueryOutcome::NoResponse,
        buf.len() >= 12 && buf[2] >= 0x80 ==> {
            let rcode = buf[3] % 16;
            let ours = buf[0] == 0x7A && buf[1] == 0x7A;
            let answers = buf[6] > 0 || buf[7] > 0;
            &&& (spec_query_outcome(Some(buf)) == QueryOutcome::Resolved) == (ours && rcode == 0 && answers)
            &&& (spec_query_outcome(Some(buf)) == QueryOutcome::NxDomain) == (rcode == 3)
        },
{
    assert(DNS_QUERY_ID == 0x7A7A);
}

/// No captive portal exactly when the check answered 204 or did not
/// answer at all.
pub proof fn law_captive_only_204(status: u16)
    ensures
        spec_classify_captive(Some(status)) == (status == 204),
        spec_classify_captive(None),
{
}

/// Any HTTP response, error statuses included, passes; a timeout fails
/// without text; a transport failure fails with its text.
pub proof fn law_http_response_passes<T>(v: T, code: u16, m: String)
    ensures
        spec_classify_http(Ok::<T, HttpError>(v)) == (true, None::<Seq<char>>),
        spec_classify_http(Err::<T, HttpError>(HttpError::StatusCode(code))) == (true, None::<Seq<char>>),
        spec_classify_http(Err::<T, HttpError>(HttpError::Timeout)) == (false, None::<Seq<char>>),
        spec_classify_http(Err::<T, HttpError>(HttpError::Transport(m))) == (false, Some(m@)),
{
}

/// A connection that must succeed fails on every error, a refusal
/// included, with the error's text (none for a timeout).
pub proof fn law_connect_must_succeed<T>(v: T, e: IoError)
    ensures
        spec_connected(Ok::<T, IoError>(v)) == (true, None::<Seq<char>>),
        spec_connected(Err::<T, IoError>(e)) == (false, if e.kind == IoErrorKind::TimedOut {
            None::<Seq<char>>
        } else {
            Some(e.message@)
        }),
{
}

} // verus!

verus! {

/// The row of a check: the name, padded with spaces to 13 characters when
/// shorter, then ` | `, 🟢 on success or 🛑 on failure, ` | `, the
/// seconds; a failed row then ends with ` | ` and the error text, or
/// `Timeout` when there is none; a successful row ends with the seconds.
pub proof fn law_row_layout(name: Seq<char>, success: bool, nanos: nat, error: Option<String>)
    ensures
        ({
            let row = spec_row(name, success, nanos, error);
            let w: int = if name.len() < 13 {
                13
            } else {
                name.len() as int
            };
            let tail: Seq<char> = if success {
                Seq::<char>::empty()
            } else {
                " | "@ + match error {
                    Some(e) => e@,
                    None => "Timeout"@,
                }
            };
            &&& row.take(name.len() as int) == name
            &&& forall|k: int| name.len() <= k < w ==> row[k] == ' '
            &&& row.subrange(w, w + 3) == " | "@
            &&& row[w + 3] == (if success { '🟢' } else { '🛑' })
            &&& row.subrange(w + 4, w + 7) == " | "@
            &&& row == row.take(w + 7) + seconds_text(nanos) + tail
        }),
{
    reveal_strlit(" | ");
    reveal_strlit("🟢");
    reveal_strlit("🛑");
    let row = spec_row(name, success, nanos, error);
    let w: int = if name.len() < 13 {
        13
    } else {
        name.len() as int
    };
    let p = crate::text::pad_right(name, 13);
    assert(p.len() == w);
    assert(p.take(name.len() as int) =~= name);
    let head = p + " | "@ + crate::check::sigil(success) + " | "@;
    assert(head.len() == w + 7);
    assert(row.take(w + 7) =~= head);
    assert(row.take(name.len() as int) =~= name);
    assert(row.subrange(w, w + 3) =~= " | "@);
    assert(row.subrange(w + 4, w + 7) =~= " | "@);
    assert forall|k: int| name.len() <= k < w implies row[k] == ' ' by {
        assert(row[k] == p[k]);
    }
    let tail: Seq<char> = if success {
        Seq::<char>::empty()
    } else {
        " | "@ + match error {
            Some(e) => e@,
            None => "Timeout"@,
        }
    };
    assert(row =~= row.take(w + 7) + seconds_text(nanos) + tail);
}

} // verus!

verus! {

/// The retry loop stops at the first attempt that passes and after the
/// last attempt, and goes on after every earlier failed attempt.
pub proof fn law_retry_until_pass(attempt: u32, times: u32)
    ensures
        !spec_should_retry(attempt, times, true),
        !spec_should_retry(times, times, false),
        1 <= attempt < times ==> spec_should_retry(attempt, times, false),
{
}

/// A banner precedes each attempt exactly when more than one attempt is
/// asked for; it reads `try <attempt> / <times>`.
pub proof fn law_attempt_banner(attempt: u32, times: u32)
    ensures
        spec_attempt_banner(attempt, times) is Some <==> times > 1,
        times > 1 ==> spec_attempt_banner(attempt, times)->0 == "try "@ + decimal(attempt as nat) + " / "@
            + decimal(times as nat),
{
}

/// Only the all-zero addresses, `0.0.0.0` and `::`, are unspecified.
pub proof fn law_unspecified_is_all_zero(a: IpAddr)
    ensures
        spec_is_unspecified(a) <==> (a == IpAddr::V4([0u8, 0u8, 0u8, 0u8]) || a == IpAddr::V6(
            [0u16, 0u16, 0u16, 0u16, 0u16, 0u16, 0u16, 0u16],
        )),
{
    match a {
        IpAddr::V4(o) => {
            if spec_is_unspecified(a) {
                assert(o =~= [0u8, 0u8, 0u8, 0u8]);
            }
        },
        IpAddr::V6(g) => {
            if spec_is_unspecified(a) {
                assert(g =~= [0u16, 0u16, 0u16, 0u16, 0u16, 0u16, 0u16, 0u16]);
            }
        },
    }
}

} // verus!

verus! {

/// Leading zeros do not change the value of digits.
proof fn lemma_leading_zeros_value(z: nat, s: Seq<char>)
    ensures
        digits_value(repeat_char('0', z) + s, 10) == digits_value(s, 10),
    decreases s.len(),
{
    let t = repeat_char('0', z) + s;
    if s.len() == 0 {
        assert(t =~= repeat_char('0', z));
        lemma_zeros_value(z);
    } else {
        assert(t.drop_last() =~= repeat_char('0', z) + s.drop_last());
        assert(t.last() == s.last());
        lemma_leading_zeros_value(z, s.drop_last());
    }
}

proof fn lemma_zeros_value(z: nat)
    ensures
        digits_value(repeat_char('0', z), 10) == 0,
    decreases z,
{
    if z > 0 {
        assert(repeat_char('0', z).drop_last() =~= repeat_char('0', (z - 1) as nat));
        lemma_zeros_value((z - 1) as nat);
    }
}

/// The seconds column: whole seconds, a dot and exactly four digits,
/// together the elapsed time in ten-thousandths of a second rounded half
/// up, that is `(nanos + 50000) / 100000`.
pub proof fn law_seconds_text_value(nanos: nat)
    ensures
        ({
            let t = seconds_text(nanos);
            let k = t.len() - 5;
            &&& k >= 1
            &&& t[k] == '.'
            &&& all_digits(t.take(k))
            &&& all_digits(t.skip(k + 1))
            &&& digits_value(t.take(k), 10) * 10000 + digits_value(t.skip(k + 1), 10) == (nanos + 50000)
                / 100000
        }),
{
    let u = tenths_of_millis(nanos);
    let q0 = nanos / 100000;
    let r0 = nanos % 100000;
    assert(nanos == 100000 * q0 + r0 && 0 <= r0 < 100000) by (nonlinear_arith)
        requires
            q0 == nanos / 100000,
            r0 == nanos % 100000,
    ;
    assert(u == (nanos + 50000) / 100000) by (nonlinear_arith)
        requires
            nanos == 100000 * q0 + r0,
            0 <= r0 < 100000,
            u == q0 + (if r0 >= 50000 { 1int } else { 0int }),
    {
        if r0 >= 50000 {
            assert(nanos + 50000 == 100000 * (q0 + 1) + (r0 - 50000));
        } else {
            assert(nanos + 50000 == 100000 * q0 + (r0 + 50000));
        }
    }
    let q = u / 10000;
    let r = u % 10000;
    let dq = decimal(q);
    let dr = decimal(r);
    lemma_decimal(q);
    lemma_decimal(r);
    if r >= 1000 {
        lemma_decimal(r / 10);
        assert(dr == decimal(r / 10).push(crate::text::digit_char(r % 10)));
    }
    assert(dr.len() <= 4);
    let f = pad_zeros(dr, 4);
    let z = (4 - dr.len()) as nat;
    if dr.len() < 4 {
        assert(f == repeat_char('0', z) + dr);
        lemma_leading_zeros_value(z, dr);
        assert forall|i: int| 0 <= i < f.len() implies is_digit(#[trigger] f[i]) by {
            if i < z {
                assert(f[i] == '0');
            } else {
                assert(f[i] == dr[i - z]);
            }
        }
    }
    assert(f.len() == 4);
    assert(digits_value(f, 10) == r);
    let t = seconds_text(nanos);
    assert(t == dq + seq!['.'] + f);
    let k = t.len() - 5;
    assert(k == dq.len());
    assert(t.take(k) =~= dq);
    assert(t.skip(k + 1) =~= f);
    assert(q * 10000 + r == u);
}

} // verus!
