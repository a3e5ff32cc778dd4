//! By-command ranking: group records by the optimized command, rank by
//! summed saved tokens.
//!
//! Groups are ordered by summed `saved_tokens` descending; equal sums fall
//! back to the command's UTF-8 bytes ascending, so that the ranking is
//! deterministic. At most the first ten groups are returned, and every
//! group left out ranks at or below the last one kept.

use vstd::prelude::*;
use vstd::string::StringSliceAdditionalSpecFns;
use vstd::utf8::encode_utf8;
use crate::record::CommandRecord;
use crate::sums::{total_where, sat64, lemma_sat_add};
use crate::aggregate::{w_one, w_saved, w_pct};

verus! {

// ---------------------------------------------------------------------------
// Lexicographic byte order
// ---------------------------------------------------------------------------

/// `a` is lexicographically at or before `b`, comparing bytes.
pub open spec fn bytes_le(a: Seq<u8>, b: Seq<u8>) -> bool
    decreases a.len(),
{
    if a.len() == 0 {
        true
    } else if b.len() == 0 {
        false
    } else if a[0] < b[0] {
        true
    } else if a[0] > b[0] {
        false
    } else {
        bytes_le(a.drop_first(), b.drop_first())
    }
}

/// Any two byte sequences compare one way or the other.
pub proof fn lemma_bytes_le_total(a: Seq<u8>, b: Seq<u8>)
    ensures
        bytes_le(a, b) || bytes_le(b, a),
    decreases a.len(),
{
    if a.len() > 0 && b.len() > 0 && a[0] == b[0] {
        lemma_bytes_le_total(a.drop_first(), b.drop_first());
    }
}

/// The byte order is reflexive.
pub proof fn lemma_bytes_le_refl(a: Seq<u8>)
    ensures
        bytes_le(a, a),
    decreases a.len(),
{
    if a.len() > 0 {
        lemma_bytes_le_refl(a.drop_first());
    }
}

/// The byte order is transitive.
pub proof fn lemma_bytes_le_trans(a: Seq<u8>, b: Seq<u8>, c: Seq<u8>)
    requires
        bytes_le(a, b),
        bytes_le(b, c),
    ensures
        bytes_le(a, c),
    decreases a.len(),
{
    if a.len() > 0 && b.len() > 0 && c.len() > 0 && a[0] == b[0] && b[0] == c[0] {
        lemma_bytes_le_trans(a.drop_first(), b.drop_first(), c.drop_first());
    }
}

/// Byte-wise equality of two texts.
fn str_eq(a: &str, b: &str) -> (r: bool)
    ensures
        r <==> a.spec_bytes() == b.spec_bytes(),
{
    let ab = a.as_bytes();
    let bb = b.as_bytes();
    if ab.len() != bb.len() {
        return false;
    }
    let mut i: usize = 0;
    while i < ab.len()
        invariant
            ab@ == a.spec_bytes(),
            bb@ == b.spec_bytes(),
            ab@.len() == bb@.len(),
            i <= ab@.len(),
            forall|t: int| 0 <= t < i ==> ab@[t] == bb@[t],
        decreases ab@.len() - i,
    {
        if ab[i] != bb[i] {
            return false;
        }
        i = i + 1;
    }
    proof {
        assert(a.spec_bytes() =~= b.spec_bytes());
    }
    true
}

/// Byte-wise lexicographic comparison of two texts.
fn str_le(a: &str, b: &str) -> (r: bool)
    ensures
        r == bytes_le(encode_utf8(a@), encode_utf8(b@)),
{
    let ab = a.as_bytes();
    let bb = b.as_bytes();
    let ghost ga = encode_utf8(a@);
    let ghost gb = encode_utf8(b@);
    proof {
        assert(ab@ == ga);
        assert(bb@ == gb);
    }
    let mut i: usize = 0;
    proof {
        assert(ga.skip(0) =~= ga);
        assert(gb.skip(0) =~= gb);
    }
    while i < ab.len() && i < bb.len()
        invariant
            ga == encode_utf8(a@),
            gb == encode_utf8(b@),
            ab@ == ga,
            bb@ == gb,
            i <= ga.len(),
            i <= gb.len(),
            bytes_le(ga, gb) == bytes_le(ga.skip(i as int), gb.skip(i as int)),
        decreases ab@.len() - i,
    {
        assert(ga.skip(i as int).len() == ga.len() - i);
        assert(gb.skip(i as int).len() == gb.len() - i);
        assert(ga.skip(i as int)[0] == ga[i as int]);
        assert(gb.skip(i as int)[0] == gb[i as int]);
        if ab[i] < bb[i] {
            assert(bytes_le(ga.skip(i as int), gb.skip(i as int)));
            assert(bytes_le(ga, gb));
            return true;
        }
        if ab[i] > bb[i] {
            assert(!bytes_le(ga.skip(i as int), gb.skip(i as int)));
            assert(!bytes_le(ga, gb));
            return false;
        }
        assert(ga.skip(i as int).drop_first() =~= ga.skip(i as int + 1));
        assert(gb.skip(i as int).drop_first() =~= gb.skip(i as int + 1));
        i = i + 1;
    }
    if i == ab.len() {
        assert(ga.skip(i as int) =~= Seq::<u8>::empty());
        true
    } else {
        assert(gb.skip(i as int) =~= Seq::<u8>::empty());
        assert(ga.skip(i as int).len() > 0);
        false
    }
}

// ---------------------------------------------------------------------------
// Command groups
// ---------------------------------------------------------------------------

/// The grouping key of a record: the optimized command's UTF-8 bytes.
pub open spec fn cmd_key(r: CommandRecord) -> Seq<u8> {
    encode_utf8(r.rtk_cmd@)
}

/// The key of each record, in order.
pub open spec fn ckeys(s: Seq<CommandRecord>) -> Seq<Seq<u8>> {
    Seq::new(s.len(), |i: int| cmd_key(s[i]))
}

/// One command's aggregate in the ranking.
pub struct CommandStats {
    pub rtk_cmd: String,
    pub commands: u64,
    pub saved_tokens: u64,
    pub mean_savings_pct_hundredths: u64,
}

pub open spec fn stats_key(b: CommandStats) -> Seq<u8> {
    encode_utf8(b.rtk_cmd@)
}

/// Count of records of command `k` among `s`.
pub open spec fn cmd_count(s: Seq<CommandRecord>, k: Seq<u8>) -> nat {
    total_where(s, ckeys(s), k, w_one(), s.len() as int)
}

/// Summed saved tokens of command `k` among `s`.
pub open spec fn cmd_saved(s: Seq<CommandRecord>, k: Seq<u8>) -> nat {
    total_where(s, ckeys(s), k, w_saved(), s.len() as int)
}

/// Summed per-record savings percentages of command `k` among `s`.
pub open spec fn cmd_pct_sum(s: Seq<CommandRecord>, k: Seq<u8>) -> nat {
    total_where(s, ckeys(s), k, w_pct(), s.len() as int)
}

/// The entry holds exactly its command's aggregates: exact count, saturating
/// saved sum, and the mean of the per-record percentages (floored).
pub open spec fn cmd_bucket_ok(s: Seq<CommandRecord>, b: CommandStats) -> bool {
    &&& b.commands == cmd_count(s, stats_key(b))
    &&& b.commands > 0
    &&& b.saved_tokens == sat64(cmd_saved(s, stats_key(b)))
    &&& b.mean_savings_pct_hundredths == sat64(cmd_pct_sum(s, stats_key(b))) as int / (
    b.commands as int)
}

/// Ranking order: more saved tokens first; equal sums fall back to the
/// command bytes ascending.
pub open spec fn rank_le(a: CommandStats, b: CommandStats) -> bool {
    ||| a.saved_tokens > b.saved_tokens
    ||| (a.saved_tokens == b.saved_tokens && bytes_le(stats_key(a), stats_key(b)))
}

/// An entry ranks at or before a group given by its saved sum and key.
pub open spec fn ranks_before(b: CommandStats, saved: u64, key: Seq<u8>) -> bool {
    ||| b.saved_tokens > saved
    ||| (b.saved_tokens == saved && bytes_le(stats_key(b), key))
}

proof fn lemma_rank_le_total(a: CommandStats, b: CommandStats)
    ensures
        rank_le(a, b) || rank_le(b, a),
{
    lemma_bytes_le_total(stats_key(a), stats_key(b));
}

proof fn lemma_rank_le_trans(a: CommandStats, b: CommandStats, c: CommandStats)
    requires
        rank_le(a, b),
        rank_le(b, c),
    ensures
        rank_le(a, c),
{
    if a.saved_tokens == b.saved_tokens && b.saved_tokens == c.saved_tokens {
        lemma_bytes_le_trans(stats_key(a), stats_key(b), stats_key(c));
    }
}

/// A key that occurs has a positive count.
proof fn lemma_count_pos(s: Seq<CommandRecord>, k: Seq<u8>, i: int, n: int)
    requires
        0 <= i < n <= s.len(),
        ckeys(s)[i] == k,
    ensures
        total_where(s, ckeys(s), k, w_one(), n) >= 1,
    decreases n,
{
    if i < n - 1 {
        lemma_count_pos(s, k, i, n - 1);
    }
}

/// Count and saturating sums of the records naming command `key`.
fn accumulate_cmd(recs: &Vec<CommandRecord>, key: &String) -> (r: (u64, u64, u64))
    requires
        recs@.len() <= u64::MAX,
    ensures
        r.0 == cmd_count(recs@, encode_utf8(key@)),
        r.1 == sat64(cmd_saved(recs@, encode_utf8(key@))),
        r.2 == sat64(cmd_pct_sum(recs@, encode_utf8(key@))),
{
    let ghost k = encode_utf8(key@);
    let n = recs.len();
    let mut i: usize = 0;
    let mut cnt: u64 = 0;
    let mut sav: u64 = 0;
    let mut pct: u64 = 0;
    while i < n
        invariant
            n == recs@.len(),
            n <= u64::MAX,
            i <= n,
            k == encode_utf8(key@),
            cnt == total_where(recs@, ckeys(recs@), k, w_one(), i as int),
            cnt <= i,
            sav == sat64(total_where(recs@, ckeys(recs@), k, w_saved(), i as int)),
            pct == sat64(total_where(recs@, ckeys(recs@), k, w_pct(), i as int)),
        decreases n - i,
    {
        let same = str_eq(recs[i].rtk_cmd.as_str(), key.as_str());
        assert(same <==> ckeys(recs@)[i as int] == k);
        if same {
            proof {
                lemma_sat_add(
                    total_where(recs@, ckeys(recs@), k, w_saved(), i as int),
                    recs@[i as int].saved_tokens as nat,
                );
                lemma_sat_add(
                    total_where(recs@, ckeys(recs@), k, w_pct(), i as int),
                    recs@[i as int].savings_pct_hundredths as nat,
                );
            }
            cnt = cnt + 1;
            sav = sav.saturating_add(recs[i].saved_tokens);
            pct = pct.saturating_add(recs[i].savings_pct_hundredths);
        }
        i = i + 1;
    }
    (cnt, sav, pct)
}

/// The command names are pairwise distinct as byte keys.
pub open spec fn names_distinct(names: Seq<String>) -> bool {
    forall|a: int, b: int|
        0 <= a < b < names.len() ==> encode_utf8(names[a]@) != encode_utf8(names[b]@)
}

/// The distinct commands of `recs`, each once, in first-seen order, with
/// witness maps: `r.1` sends each record to its name's index, `r.2` each
/// name to a record naming it.
fn distinct_commands(recs: &Vec<CommandRecord>) -> (r: (Vec<String>, Ghost<Seq<int>>, Ghost<Seq<int>>))
    ensures
        names_distinct(r.0@),
        r.1@.len() == recs@.len(),
        forall|i: int|
            0 <= i < recs@.len() ==> 0 <= #[trigger] r.1@[i] < r.0@.len() && encode_utf8(
                r.0@[r.1@[i]]@,
            ) == cmd_key(recs@[i]),
        r.2@.len() == r.0@.len(),
        forall|t: int|
            0 <= t < r.0@.len() ==> 0 <= #[trigger] r.2@[t] < recs@.len() && cmd_key(
                recs@[r.2@[t]],
            ) == encode_utf8(r.0@[t]@),
{
    let mut names: Vec<String> = Vec::new();
    let ghost mut wit: Seq<int> = Seq::empty();
    let ghost mut pres: Seq<int> = Seq::empty();
    let mut i: usize = 0;
    while i < recs.len()
        invariant
            i <= recs@.len(),
            names_distinct(names@),
            wit.len() == i,
            forall|t: int|
                0 <= t < i ==> 0 <= #[trigger] wit[t] < names@.len() && encode_utf8(
                    names@[wit[t]]@,
                ) == cmd_key(recs@[t]),
            pres.len() == names@.len(),
            forall|t: int|
                0 <= t < names@.len() ==> 0 <= #[trigger] pres[t] < recs@.len() && cmd_key(
                    recs@[pres[t]],
                ) == encode_utf8(names@[t]@),
        decreases recs@.len() - i,
    {
        let mut found: Option<usize> = None;
        let mut t: usize = 0;
        while t < names.len()
            invariant
                t <= names@.len(),
                i < recs@.len(),
                match found {
                    Some(u) => u < names@.len() && encode_utf8(names@[u as int]@) == cmd_key(
                        recs@[i as int],
                    ),
                    None => forall|u: int|
                        0 <= u < t ==> encode_utf8((#[trigger] names@[u])@) != cmd_key(
                            recs@[i as int],
                        ),
                },
            decreases names@.len() - t,
        {
            if str_eq(names[t].as_str(), recs[i].rtk_cmd.as_str()) {
                found = Some(t);
                assert(encode_utf8(names@[t as int]@) == cmd_key(recs@[i as int]));
            }
            t = t + 1;
        }
        match found {
            Some(u) => {
                proof {
                    wit = wit.push(u as int);
                }
            },
            None => {
                let ghost old_names = names@;
                names.push(recs[i].rtk_cmd.clone());
                proof {
                    wit = wit.push(old_names.len() as int);
                    pres = pres.push(i as int);
                    assert(encode_utf8(names@[old_names.len() as int]@) == cmd_key(
                        recs@[i as int],
                    ));
                    assert forall|t2: int|
                        0 <= t2 < i + 1 implies 0 <= #[trigger] wit[t2] < names@.len()
                        && encode_utf8(names@[wit[t2]]@) == cmd_key(recs@[t2]) by {
                        if t2 < i {
                            assert(names@[wit[t2]] == old_names[wit[t2]]);
                        }
                    }
                }
            },
        }
        i = i + 1;
    }
    (names, Ghost(wit), Ghost(pres))
}

/// The ranking comparison, executable.
fn rank_le_x(a: &CommandStats, b: &CommandStats) -> (r: bool)
    ensures
        r == rank_le(*a, *b),
{
    if a.saved_tokens > b.saved_tokens {
        true
    } else if a.saved_tokens < b.saved_tokens {
        false
    } else {
        str_le(a.rtk_cmd.as_str(), b.rtk_cmd.as_str())
    }
}

/// The per-command aggregates of every distinct command, parallel to
/// `names`.
fn group_stats(recs: &Vec<CommandRecord>, names: &Vec<String>, Ghost(pres): Ghost<Seq<int>>) -> (stats: Vec<
    CommandStats,
>)
    requires
        recs@.len() <= u64::MAX,
        pres.len() == names@.len(),
        forall|t: int|
            0 <= t < names@.len() ==> 0 <= #[trigger] pres[t] < recs@.len() && cmd_key(
                recs@[pres[t]],
            ) == encode_utf8(names@[t]@),
    ensures
        stats@.len() == names@.len(),
        forall|t: int|
            0 <= t < names@.len() ==> cmd_bucket_ok(recs@, #[trigger] stats@[t]) && stats_key(
                stats@[t],
            ) == encode_utf8(names@[t]@),
{
    let mut stats: Vec<CommandStats> = Vec::new();
    let mut t: usize = 0;
    while t < names.len()
        invariant
            recs@.len() <= u64::MAX,
            pres.len() == names@.len(),
            forall|u: int|
                0 <= u < names@.len() ==> 0 <= #[trigger] pres[u] < recs@.len() && cmd_key(
                    recs@[pres[u]],
                ) == encode_utf8(names@[u]@),
            t <= names@.len(),
            stats@.len() == t,
            forall|u: int|
                0 <= u < t ==> cmd_bucket_ok(recs@, #[trigger] stats@[u]) && stats_key(
                    stats@[u],
                ) == encode_utf8(names@[u]@),
        decreases names@.len() - t,
    {
        let sums = accumulate_cmd(recs, &names[t]);
        proof {
            assert(ckeys(recs@)[pres[t as int]] == encode_utf8(names@[t as int]@));
            lemma_count_pos(
                recs@,
                encode_utf8(names@[t as int]@),
                pres[t as int],
                recs@.len() as int,
            );
        }
        let mean = sums.2 / sums.0;
        stats.push(
            CommandStats {
                rtk_cmd: names[t].clone(),
                commands: sums.0,
                saved_tokens: sums.1,
                mean_savings_pct_hundredths: mean,
            },
        );
        t = t + 1;
    }
    stats
}

/// The by-command ranking: one entry per distinct command, ranked by summed
/// saved tokens descending (command bytes ascending on ties), at most ten
/// entries, and every command left out ranks at or below the last entry
/// kept.
pub fn by_command(recs: &Vec<CommandRecord>) -> (res: Vec<CommandStats>)
    ensures
        res@.len() <= 10,
        forall|a: int, b: int| 0 <= a < b < res@.len() ==> rank_le(res@[a], res@[b]),
        forall|a: int, b: int|
            0 <= a < b < res@.len() ==> stats_key(res@[a]) != stats_key(res@[b]),
        forall|j: int| 0 <= j < res@.len() ==> cmd_bucket_ok(recs@, #[trigger] res@[j]),
        forall|i: int|
            0 <= i < recs@.len() ==> (exists|j: int|
                0 <= j < res@.len() && stats_key(#[trigger] res@[j]) == cmd_key(recs@[i]))
                || (res@.len() == 10 && ranks_before(
                res@[9],
                sat64(cmd_saved(recs@, cmd_key(#[trigger] recs@[i]))),
                cmd_key(recs@[i]),
            )),
        recs@.len() == 0 ==> res@.len() == 0,
{
    let nrec = recs.len();
    proof {
        assert(nrec as nat <= u64::MAX as nat);
    }
    let dc = distinct_commands(recs);
    let names = dc.0;
    let ghost wit = dc.1@;
    let ghost gpres = dc.2@;
    let mut stats = group_stats(recs, &names, dc.2);
    let ghost gnames = names@;
    // Ghost bookkeeping: where each name's entry currently lives (result or
    // unselected), and which name each unselected entry belongs to.
    let ghost mut inres: Seq<bool> = Seq::new(gnames.len(), |t: int| false);
    let ghost mut pos: Seq<int> = Seq::new(gnames.len(), |t: int| t);
    let ghost mut sname: Seq<int> = Seq::new(gnames.len(), |t: int| t);
    let mut res: Vec<CommandStats> = Vec::new();
    proof {
        assert forall|t: int| 0 <= t < gnames.len() && !inres[t] implies sname[pos[t]] == t by {}
        assert forall|a: int, b: int| 0 <= a < b < stats@.len() implies stats_key(stats@[a])
            != stats_key(stats@[b]) by {
            assert(stats_key(stats@[a]) == encode_utf8(gnames[a]@));
            assert(stats_key(stats@[b]) == encode_utf8(gnames[b]@));
        }
    }
    while res.len() < 10 && stats.len() > 0
        invariant
            inres.len() == gnames.len(),
            pos.len() == gnames.len(),
            sname.len() == stats@.len(),
            res@.len() + stats@.len() == gnames.len(),
            res@.len() <= 10,
            forall|t: int|
                0 <= t < gnames.len() ==> if inres[t] {
                    0 <= #[trigger] pos[t] < res@.len() && stats_key(res@[pos[t]]) == encode_utf8(
                        gnames[t]@,
                    )
                } else {
                    0 <= pos[t] < stats@.len() && stats_key(stats@[pos[t]]) == encode_utf8(
                        gnames[t]@,
                    )
                },
            forall|t: int| 0 <= t < gnames.len() && !inres[t] ==> sname[#[trigger] pos[t]] == t,
            forall|j: int|
                0 <= j < stats@.len() ==> 0 <= #[trigger] sname[j] < gnames.len()
                    && !inres[sname[j]] && pos[sname[j]] == j,
            forall|j: int| 0 <= j < res@.len() ==> cmd_bucket_ok(recs@, #[trigger] res@[j]),
            forall|j: int| 0 <= j < stats@.len() ==> cmd_bucket_ok(recs@, #[trigger] stats@[j]),
            forall|a: int, b: int| 0 <= a < b < res@.len() ==> rank_le(res@[a], res@[b]),
            forall|a: int, b: int|
                0 <= a < b < res@.len() ==> stats_key(res@[a]) != stats_key(res@[b]),
            forall|a: int, b: int|
                0 <= a < res@.len() && 0 <= b < stats@.len() ==> stats_key(res@[a]) != stats_key(
                    stats@[b],
                ),
            forall|a: int, b: int|
                0 <= a < b < stats@.len() ==> stats_key(stats@[a]) != stats_key(stats@[b]),
            forall|a: int, b: int|
                0 <= a < res@.len() && 0 <= b < stats@.len() ==> rank_le(res@[a], stats@[b]),
        decreases stats@.len(),
    {
        // Pick the best-ranked remaining entry.
        let mut m: usize = 0;
        let mut q: usize = 1;
        proof {
            lemma_bytes_le_refl(stats_key(stats@[0]));
        }
        while q < stats.len()
            invariant
                q <= stats@.len(),
                m < stats@.len(),
                stats@.len() > 0,
                forall|u: int| 0 <= u < q ==> rank_le(stats@[m as int], #[trigger] stats@[u]),
            decreases stats@.len() - q,
        {
            if rank_le_x(&stats[q], &stats[m]) {
                proof {
                    assert forall|u: int| 0 <= u < q + 1 implies rank_le(
                        stats@[q as int],
                        #[trigger] stats@[u],
                    ) by {
                        if u < q {
                            lemma_rank_le_trans(stats@[q as int], stats@[m as int], stats@[u]);
                        } else {
                            lemma_bytes_le_refl(stats_key(stats@[q as int]));
                        }
                    }
                }
                m = q;
            } else {
                proof {
                    lemma_rank_le_total(stats@[q as int], stats@[m as int]);
                }
            }
            q = q + 1;
        }
        let ghost old_stats = stats@;
        let ghost old_res = res@;
        let ghost old_pos = pos;
        let ghost old_inres = inres;
        let ghost old_sname = sname;
        let ghost tm = sname[m as int];
        let g = stats.remove(m);
        res.push(g);
        proof {
            inres = old_inres.update(tm, true);
            pos = Seq::new(
                gnames.len(),
                |t: int| if t == tm {
                    old_res.len() as int
                } else if !old_inres[t] && old_pos[t] > m as int {
                    old_pos[t] - 1
                } else {
                    old_pos[t]
                },
            );
            sname = old_sname.remove(m as int);
            assert forall|t: int| 0 <= t < gnames.len() implies (if inres[t] {
                0 <= #[trigger] pos[t] < res@.len() && stats_key(res@[pos[t]]) == encode_utf8(
                    gnames[t]@,
                )
            } else {
                0 <= pos[t] < stats@.len() && stats_key(stats@[pos[t]]) == encode_utf8(gnames[t]@)
            }) by {
                if t == tm {
                    assert(res@[old_res.len() as int] == g);
                } else if old_inres[t] {
                    assert(res@[pos[t]] == old_res[old_pos[t]]);
                } else {
                    assert(old_pos[t] != m as int);
                    if old_pos[t] > m as int {
                        assert(stats@[old_pos[t] - 1] == old_stats[old_pos[t]]);
                    } else {
                        assert(stats@[old_pos[t]] == old_stats[old_pos[t]]);
                    }
                }
            }
            assert forall|j: int|
                0 <= j < stats@.len() implies 0 <= #[trigger] sname[j] < gnames.len()
                && !inres[sname[j]] && pos[sname[j]] == j by {
                if j < m as int {
                    assert(sname[j] == old_sname[j]);
                    assert(old_sname[j] != tm);
                } else {
                    assert(sname[j] == old_sname[j + 1]);
                    assert(old_sname[j + 1] != tm);
                }
            }
            assert forall|b: int| 0 <= b < stats@.len() implies stats@[b]
                == old_stats[if b < m as int { b } else { b + 1 }] by {}
            assert forall|a: int, b: int|
                0 <= a < res@.len() && 0 <= b < stats@.len() implies stats_key(res@[a])
                != stats_key(stats@[b]) by {
                let ob = if b < m as int { b } else { b + 1 };
                assert(stats@[b] == old_stats[ob]);
                if a < old_res.len() {
                    assert(res@[a] == old_res[a]);
                } else {
                    assert(res@[a] == old_stats[m as int]);
                    if ob < m as int {
                        assert(stats_key(old_stats[ob]) != stats_key(old_stats[m as int]));
                    } else {
                        assert(stats_key(old_stats[m as int]) != stats_key(old_stats[ob]));
                    }
                }
            }
            assert forall|a: int, b: int|
                0 <= a < res@.len() && 0 <= b < stats@.len() implies rank_le(
                res@[a],
                stats@[b],
            ) by {
                let ob = if b < m as int { b } else { b + 1 };
                assert(stats@[b] == old_stats[ob]);
                if a < old_res.len() {
                    assert(res@[a] == old_res[a]);
                } else {
                    assert(res@[a] == old_stats[m as int]);
                }
            }
            assert forall|a: int, b: int| 0 <= a < b < res@.len() implies rank_le(
                res@[a],
                res@[b],
            ) by {
                if b < old_res.len() {
                    assert(res@[a] == old_res[a] && res@[b] == old_res[b]);
                } else {
                    assert(res@[a] == old_res[a] && res@[b] == old_stats[m as int]);
                }
            }
            assert forall|a: int, b: int| 0 <= a < b < res@.len() implies stats_key(res@[a])
                != stats_key(res@[b]) by {
                if b < old_res.len() {
                    assert(res@[a] == old_res[a] && res@[b] == old_res[b]);
                } else {
                    assert(res@[a] == old_res[a] && res@[b] == old_stats[m as int]);
                }
            }
            assert forall|a: int, b: int| 0 <= a < b < stats@.len() implies stats_key(stats@[a])
                != stats_key(stats@[b]) by {
                let oa = if a < m as int { a } else { a + 1 };
                let ob = if b < m as int { b } else { b + 1 };
                assert(stats@[a] == old_stats[oa] && stats@[b] == old_stats[ob]);
                assert(stats_key(old_stats[oa]) != stats_key(old_stats[ob]));
            }
        }
    }
    proof {
        if recs@.len() == 0 {
            if gnames.len() > 0 {
                assert(0 <= gpres[0] < recs@.len());
            }
        }
    }
    proof {
        assert forall|i: int|
            0 <= i < recs@.len() implies (exists|j: int|
                0 <= j < res@.len() && stats_key(#[trigger] res@[j]) == cmd_key(recs@[i]))
                || (res@.len() == 10 && ranks_before(
                res@[9],
                sat64(cmd_saved(recs@, cmd_key(recs@[i]))),
                cmd_key(recs@[i]),
            )) by {
            let t = wit[i];
            assert(encode_utf8(gnames[t]@) == cmd_key(recs@[i]));
            if inres[t] {
                assert(stats_key(res@[pos[t]]) == cmd_key(recs@[i]));
            } else {
                let y = stats@[pos[t]];
                assert(rank_le(res@[9], y));
                assert(cmd_bucket_ok(recs@, y));
                assert(y.saved_tokens == sat64(cmd_saved(recs@, cmd_key(recs@[i]))));
            }
        }
    }
    res
}

} // verus!