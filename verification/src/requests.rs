//! What a request is answered, told from what it is written with.

use crate::cuts;
use crate::glob;
use crate::options::CompileOptions;
use crate::seps::Seps;
use crate::unions;
use crate::wire;
use vstd::prelude::*;

verus! {

// Fields.

/// `b` is a hexadecimal digit of the value `v`.
pub open spec fn hex_digit(b: u8, v: int) -> bool {
    (0 <= v < 10 && b == 0x30 + v) || (10 <= v < 16 && (b == 0x57 + v || b == 0x37 + v))
}

/// `w` spells the byte `b`: as it is, as a double backslash, or as a backslash,
/// an `x` and two hexadecimal digits.
pub open spec fn spells(b: u8, w: Seq<u8>) -> bool {
    ||| b != 0x5c && b != 0x09 && w == seq![b]
    ||| b == 0x5c && w == seq![0x5cu8, 0x5cu8]
    ||| w.len() == 4 && w[0] == 0x5c && w[1] == 0x78 && hex_digit(w[2], b as int / 16) && hex_digit(
        w[3],
        b as int % 16,
    )
}

pub open spec fn all_spell(bytes: Seq<u8>, ws: Seq<Seq<u8>>) -> bool {
    bytes.len() == ws.len() && forall|i: int|
        0 <= i < bytes.len() ==> spells(#[trigger] bytes[i], ws[i])
}

/// The fields with tabs between them.
pub open spec fn tabbed(cols: Seq<Seq<u8>>) -> Seq<u8>
    decreases cols.len(),
{
    if cols.len() == 0 {
        seq![]
    } else if cols.len() == 1 {
        cols[0]
    } else {
        cols[0] + (seq![0x09u8] + tabbed(cols.drop_first()))
    }
}

/// A byte is a hexadecimal digit of a value exactly where it is read as that
/// value.
pub proof fn law_hexadecimal_digits_have_their_values(b: u8, v: u8)
    ensures
        wire::digit(b) == Some(v) <==> hex_digit(b, v as int),
        wire::digit(b) is None <==> !(0x30 <= b <= 0x39) && !(0x41 <= b <= 0x46) && !(0x61 <= b
            <= 0x66),
{
}

/// However its bytes are spelled, a field stands for them.
pub proof fn law_field_stands_for_its_bytes(bytes: Seq<u8>, ws: Seq<Seq<u8>>)
    requires
        all_spell(bytes, ws),
    ensures
        wire::unescaped(wire::flat(ws)) == bytes,
{
    assert forall|i: int| 0 <= i < bytes.len() implies wire::writes(#[trigger] bytes[i], ws[i]) by {
        let b = bytes[i];
        let w = ws[i];
        assert(spells(b, w));
        if w.len() == 4 {
            let h = (b as int / 16) as u8;
            let l = (b as int % 16) as u8;
            assert(0 <= b as int / 16 < 16);
            law_hexadecimal_digits_have_their_values(w[2], h);
            law_hexadecimal_digits_have_their_values(w[3], l);
            assert(h * 16 + l == b);
        }
    }
    wire::law_unescape_reads_what_was_written(bytes, ws);
}

/// A backslash that starts no escape stands for itself, and what follows it is
/// read on its own.
pub proof fn law_other_backslashes_stand_for_themselves(rest: Seq<u8>)
    requires
        rest.len() > 0 ==> rest[0] != 0x5c,
        !(rest.len() > 2 && rest[0] == 0x78 && (exists|v: int| hex_digit(rest[1], v)) && (exists|
            v: int,
        | hex_digit(rest[2], v))),
    ensures
        wire::unescaped(seq![0x5cu8] + rest) == seq![0x5cu8] + wire::unescaped(rest),
{
    let all = seq![0x5cu8] + rest;
    assert(all.skip(1) =~= rest);
    if wire::escapes(all) {
        let h = wire::digit(all[2])->0;
        let l = wire::digit(all[3])->0;
        law_hexadecimal_digits_have_their_values(all[2], h);
        law_hexadecimal_digits_have_their_values(all[3], l);
        assert(all[2] == rest[1] && all[3] == rest[2]);
        assert(hex_digit(rest[1], h as int));
        assert(hex_digit(rest[2], l as int));
    }
}

proof fn lemma_first_tab(a: Seq<u8>, z: Seq<u8>)
    requires
        !a.contains(0x09u8),
        z.len() > 0 ==> z[0] == 0x09,
    ensures
        wire::first_tab(a + z) == a.len(),
    decreases a.len(),
{
    let all = a + z;
    if a.len() > 0 {
        assert(a.contains(a[0]));
        assert(all.skip(1) =~= a.skip(1) + z);
        assert(!a.skip(1).contains(0x09u8)) by {
            if a.skip(1).contains(0x09u8) {
                let k = choose|k: int| 0 <= k < a.skip(1).len() && a.skip(1)[k] == 0x09u8;
                assert(a[k + 1] == 0x09u8);
                assert(a.contains(0x09u8));
            }
        }
        lemma_first_tab(a.skip(1), z);
    } else {
        assert(all =~= z);
    }
}

/// The fields of a line are what stands between its tabs.
pub proof fn law_tabs_part_the_fields(cols: Seq<Seq<u8>>)
    requires
        cols.len() > 0,
        forall|i: int| 0 <= i < cols.len() ==> !(#[trigger] cols[i]).contains(0x09u8),
    ensures
        wire::fields(tabbed(cols)) == cols,
    decreases cols.len(),
{
    let a = cols[0];
    let b = tabbed(cols);
    let less = cols.drop_first();
    if cols.len() == 1 {
        lemma_first_tab(a, seq![]);
        assert(a + Seq::<u8>::empty() =~= b);
        assert(wire::fields(b) =~= cols);
    } else {
        let z = seq![0x09u8] + tabbed(less);
        lemma_first_tab(a, z);
        assert forall|i: int| 0 <= i < less.len() implies !(#[trigger] less[i]).contains(0x09u8) by {
            assert(less[i] == cols[i + 1]);
        }
        law_tabs_part_the_fields(less);
        let n = a.len() as int;
        assert(b.take(n) =~= a);
        assert(b.skip(n + 1) =~= tabbed(less));
        assert(wire::fields(b) =~= cols);
    }
}

proof fn lemma_spelled_tabless(bytes: Seq<u8>, ws: Seq<Seq<u8>>)
    requires
        all_spell(bytes, ws),
    ensures
        !wire::flat(ws).contains(0x09u8),
    decreases ws.len(),
{
    if ws.len() > 0 {
        let w = ws[0];
        let rest = ws.skip(1);
        assert(spells(bytes[0], ws[0]));
        assert(all_spell(bytes.skip(1), rest)) by {
            assert forall|i: int| 0 <= i < bytes.skip(1).len() implies spells(
                #[trigger] bytes.skip(1)[i],
                rest[i],
            ) by {
                assert(spells(bytes[i + 1], ws[i + 1]));
            }
        }
        lemma_spelled_tabless(bytes.skip(1), rest);
        let all = wire::flat(ws);
        if all.contains(0x09u8) {
            let k = choose|k: int| 0 <= k < all.len() && all[k] == 0x09u8;
            if k < w.len() {
                assert(w[k] == 0x09u8);
            } else {
                assert(wire::flat(rest)[k - w.len()] == 0x09u8);
                assert(wire::flat(rest).contains(0x09u8));
            }
        }
    }
}

// Requests.

/// What a request says on options: the first flag is `1` where wildcards match
/// a leading dot, the second where case is ignored.
pub open spec fn asked(dot: u8, case: u8) -> CompileOptions {
    CompileOptions { dot: dot == 0x31, case_insensitive: case == 0x31 }
}

/// The fields of a request: a command, two flags, and the rest.
pub open spec fn request(command: u8, dot: u8, case: u8, rest: Seq<Seq<u8>>) -> Seq<Seq<u8>> {
    seq![seq![command], seq![dot, case]] + rest
}

proof fn lemma_request(command: u8, dot: u8, case: u8, rest: Seq<Seq<u8>>)
    requires
        command != 0x09,
        dot != 0x09,
        case != 0x09,
        forall|i: int| 0 <= i < rest.len() ==> !(#[trigger] rest[i]).contains(0x09u8),
    ensures
        wire::fields(tabbed(request(command, dot, case, rest))) == request(
            command,
            dot,
            case,
            rest,
        ),
{
    let cols = request(command, dot, case, rest);
    assert forall|i: int| 0 <= i < cols.len() implies !(#[trigger] cols[i]).contains(0x09u8) by {
        if i >= 2 {
            assert(cols[i] == rest[i - 2]);
        }
    }
    law_tabs_part_the_fields(cols);
}

proof fn lemma_pattern_field(pattern: Seq<char>, ws: Seq<Seq<u8>>)
    requires
        all_spell(glob::text_bytes(pattern), ws),
    ensures
        wire::is_text(wire::flat(ws)),
        wire::text(wire::flat(ws)) == pattern,
        !wire::flat(ws).contains(0x09u8),
{
    law_field_stands_for_its_bytes(glob::text_bytes(pattern), ws);
    lemma_spelled_tabless(glob::text_bytes(pattern), ws);
    vstd::utf8::encode_utf8_valid_utf8(pattern);
    vstd::utf8::encode_utf8_decode_utf8(pattern);
}

/// A line `m`, two flags, a pattern and a path is answered `match` where the
/// pattern matches the path, and `no-match` where it does not. Where the
/// pattern does not compile, the answer is `err:` and the kind of error.
pub proof fn law_match_request_is_answered(
    dot: u8,
    case: u8,
    pattern: Seq<char>,
    pws: Seq<Seq<u8>>,
    path: Seq<u8>,
    qws: Seq<Seq<u8>>,
    seps: Seps,
    r: Seq<char>,
)
    requires
        dot != 0x09,
        case != 0x09,
        all_spell(glob::text_bytes(pattern), pws),
        all_spell(path, qws),
        wire::answers(
            tabbed(request(0x6d, dot, case, seq![wire::flat(pws), wire::flat(qws)])),
            seps,
            r,
        ),
    ensures
        match glob::compiled(pattern, asked(dot, case), seps) {
            Ok(g) => r == if g.matches(path) {
                "match"@
            } else {
                "no-match"@
            },
            Err(e) => r == "err:"@ + wire::kind_text(e),
        },
{
    let rest = seq![wire::flat(pws), wire::flat(qws)];
    lemma_pattern_field(pattern, pws);
    law_field_stands_for_its_bytes(path, qws);
    lemma_spelled_tabless(path, qws);
    lemma_request(0x6d, dot, case, rest);
    let cols = request(0x6d, dot, case, rest);
    assert(cols[2] == rest[0] && cols[3] == rest[1]);
}

/// A line `d`, two flags, a pattern and a directory is answered with the two
/// flags of the verdict on the directory.
pub proof fn law_directory_request_is_answered(
    dot: u8,
    case: u8,
    pattern: Seq<char>,
    pws: Seq<Seq<u8>>,
    dir: Seq<u8>,
    qws: Seq<Seq<u8>>,
    seps: Seps,
    r: Seq<char>,
)
    requires
        dot != 0x09,
        case != 0x09,
        all_spell(glob::text_bytes(pattern), pws),
        all_spell(dir, qws),
        wire::answers(
            tabbed(request(0x64, dot, case, seq![wire::flat(pws), wire::flat(qws)])),
            seps,
            r,
        ),
    ensures
        match glob::compiled(pattern, asked(dot, case), seps) {
            Ok(g) => r == match (g.verdict(dir).exact(), g.verdict(dir).below()) {
                (true, true) => "descend-match"@,
                (true, false) => "match"@,
                (false, true) => "descend"@,
                (false, false) => "pruned"@,
            },
            Err(e) => r == "err:"@ + wire::kind_text(e),
        },
{
    let rest = seq![wire::flat(pws), wire::flat(qws)];
    lemma_pattern_field(pattern, pws);
    law_field_stands_for_its_bytes(dir, qws);
    lemma_spelled_tabless(dir, qws);
    lemma_request(0x64, dot, case, rest);
    let cols = request(0x64, dot, case, rest);
    assert(cols[2] == rest[0] && cols[3] == rest[1]);
}

/// The fields of patterns, each spelled in some way.
pub open spec fn spelled_fields(patterns: Seq<Seq<char>>, pws: Seq<Seq<Seq<u8>>>) -> bool {
    patterns.len() == pws.len() && forall|i: int|
        0 <= i < patterns.len() ==> all_spell(glob::text_bytes(#[trigger] patterns[i]), pws[i])
}

/// A line `u`, two flags, a path and patterns that a union takes is answered
/// `match` where some pattern matches the path on its own, and `no-match` where
/// none does.
///
/// Where a backslash separates segments too, the path holds none.
#[verifier::rlimit(40)]
pub proof fn law_union_request_is_answered(
    dot: u8,
    case: u8,
    path: Seq<u8>,
    qws: Seq<Seq<u8>>,
    patterns: Seq<Seq<char>>,
    pws: Seq<Seq<Seq<u8>>>,
    seps: Seps,
    r: Seq<char>,
)
    requires
        dot != 0x09,
        case != 0x09,
        all_spell(path, qws),
        patterns.len() > 0,
        spelled_fields(patterns, pws),
        forall|i: int|
            0 <= i < patterns.len() ==> (glob::compiled(
                #[trigger] patterns[i],
                asked(dot, case),
                seps,
            ) matches Ok(g) && !g.negated),
        seps.backslash ==> forall|k: int| 0 <= k < path.len() ==> #[trigger] path[k] != 0x5c,
        wire::answers(
            tabbed(
                request(
                    0x75,
                    dot,
                    case,
                    seq![wire::flat(qws)] + Seq::new(pws.len(), |i: int| wire::flat(pws[i])),
                ),
            ),
            seps,
            r,
        ),
    ensures
        r == if exists|i: int|
            0 <= i < patterns.len() && (glob::compiled(
                #[trigger] patterns[i],
                asked(dot, case),
                seps,
            )->Ok_0).matches(path) {
            "match"@
        } else {
            "no-match"@
        },
{
    let opts = asked(dot, case);
    let fs = Seq::new(pws.len(), |i: int| wire::flat(pws[i]));
    let rest = seq![wire::flat(qws)] + fs;
    law_field_stands_for_its_bytes(path, qws);
    lemma_spelled_tabless(path, qws);
    assert forall|i: int| 0 <= i < patterns.len() implies wire::is_text(#[trigger] fs[i])
        && wire::text(fs[i]) == patterns[i] && !fs[i].contains(0x09u8) by {
        assert(all_spell(glob::text_bytes(patterns[i]), pws[i]));
        lemma_pattern_field(patterns[i], pws[i]);
    }
    assert forall|i: int| 0 <= i < rest.len() implies !(#[trigger] rest[i]).contains(0x09u8) by {
        if i > 0 {
            assert(rest[i] == fs[i - 1]);
        }
    }
    lemma_request(0x75, dot, case, rest);
    let cols = request(0x75, dot, case, rest);
    assert(cols[2] == rest[0]);
    assert(cols.skip(3) =~= fs);
    assert(wire::texts(fs) =~= patterns);
    assert forall|i: int| 0 <= i < patterns.len() implies glob::admitted(#[trigger] patterns[i])
        && unions::joins(patterns[i], seps, path) by {
        assert(glob::compiled(patterns[i], opts, seps) is Ok);
        unions::law_slashed_paths_are_told_apart(glob::member_body(patterns[i]), seps, path);
    }
    assert(glob::all_admitted(patterns, patterns.len() as int));
    cuts::law_union_is_or(patterns, opts, seps, path);
    assert forall|i: int| 0 <= i < patterns.len() implies unions::member(
        #[trigger] patterns[i],
        opts,
        seps,
    ) == glob::compiled(patterns[i], opts, seps)->Ok_0 by {}
    if exists|i: int|
        0 <= i < patterns.len() && (glob::compiled(#[trigger] patterns[i], opts, seps)->Ok_0).matches(
            path,
        ) {
        let i = choose|i: int|
            0 <= i < patterns.len() && (glob::compiled(
                #[trigger] patterns[i],
                opts,
                seps,
            )->Ok_0).matches(path);
        assert(unions::member(patterns[i], opts, seps).matches(path));
    }
}

/// A line without a known command, without two flags, or with fewer fields than
/// its command takes is a bad request.
pub proof fn law_other_requests_are_refused(
    cols: Seq<Seq<u8>>,
    seps: Seps,
    r: Seq<char>,
)
    requires
        cols.len() > 0,
        forall|i: int| 0 <= i < cols.len() ==> !(#[trigger] cols[i]).contains(0x09u8),
        cols.len() < 4 || cols[1].len() != 2 || (cols[0] != seq![0x6du8] && cols[0] != seq![0x64u8]
            && cols[0] != seq![0x75u8]),
        wire::answers(tabbed(cols), seps, r),
    ensures
        r == "err:BadRequest"@,
{
    law_tabs_part_the_fields(cols);
}

} // verus!
