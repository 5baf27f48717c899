//! The leaderboard: one line per player, ranked by total score.
//!
//! Every submitted score counts on the player's line, after which the whole
//! board is sorted anew from the highest score down and every line is given
//! its place as rank. Players with equal scores keep the order in which they
//! stood before; a player new to the board stands behind those it ties with.

use vstd::prelude::*;

verus! {

/// One player's line of the leaderboard.
#[derive(Clone, Copy, Debug, PartialEq, Eq, Structural)]
pub struct PlayerScore {
    pub player: u64,
    pub total_games: u32,
    pub total_score: u64,
    pub rank: u32,
}

/// The same player with the same games and score; the rank may differ.
pub open spec fn same_entry(a: PlayerScore, b: PlayerScore) -> bool {
    a.player == b.player && a.total_games == b.total_games && a.total_score == b.total_score
}

/// No player has two lines.
pub open spec fn distinct_players(s: Seq<PlayerScore>) -> bool {
    forall|i: int, j: int|
        0 <= i < s.len() && 0 <= j < s.len() && i != j ==> (#[trigger] s[i]).player != (
        #[trigger] s[j]).player
}

/// Whether `player` has a line.
pub open spec fn has_player(s: Seq<PlayerScore>, player: u64) -> bool {
    exists|i: int| 0 <= i < s.len() && (#[trigger] s[i]).player == player
}

/// Where the line of `player` stands, if there is one.
pub open spec fn index_of(s: Seq<PlayerScore>, player: u64) -> int {
    choose|i: int| 0 <= i < s.len() && (#[trigger] s[i]).player == player
}

/// Whether `s` holds a line for the same player with the same games and
/// score as `row`.
#[verifier::opaque]
pub open spec fn appears_in(row: PlayerScore, s: Seq<PlayerScore>) -> bool {
    exists|i: int| 0 <= i < s.len() && same_entry(#[trigger] s[i], row)
}

/// From the highest score down; equal scores may stand side by side.
pub open spec fn descending(s: Seq<PlayerScore>) -> bool {
    forall|i: int, j: int|
        0 <= i < j < s.len() ==> (#[trigger] s[i]).total_score >= (#[trigger] s[j]).total_score
}

/// Each line carries its place, counted from one.
pub open spec fn ranked(s: Seq<PlayerScore>) -> bool {
    forall|i: int| 0 <= i < s.len() ==> (#[trigger] s[i]).rank == i + 1
}

/// `out` holds the lines of `input`, none lost and none invented, from the
/// highest score down. Lines with equal scores keep the order they had in
/// `input`: that is the tie-break.
pub open spec fn arranged(input: Seq<PlayerScore>, out: Seq<PlayerScore>) -> bool {
    &&& out.len() == input.len()
    &&& descending(out)
    &&& forall|k: int| 0 <= k < input.len() ==> appears_in(#[trigger] input[k], out)
    &&& forall|i: int| 0 <= i < out.len() ==> appears_in(#[trigger] out[i], input)
    &&& forall|i: int, j: int|
        0 <= i < j < out.len() && (#[trigger] out[i]).total_score == (
        #[trigger] out[j]).total_score ==> index_of(input, out[i].player) < index_of(
            input,
            out[j].player,
        )
}

/// Where players are distinct, a player's line is found where it stands.
pub proof fn lemma_index_of(s: Seq<PlayerScore>, i: int)
    requires
        distinct_players(s),
        0 <= i < s.len(),
    ensures
        index_of(s, s[i].player) == i,
        has_player(s, s[i].player),
{
    let p = s[i].player;
    let w = index_of(s, p);
    assert(0 <= w < s.len() && s[w].player == p);
}

/// `perm` says for each place of `cur` which place of `input` its line came
/// from, and `inv` says the reverse. Lines with equal scores stand in the
/// order they came in.
spec fn tracks(
    input: Seq<PlayerScore>,
    cur: Seq<PlayerScore>,
    perm: Seq<int>,
    inv: Seq<int>,
) -> bool {
    &&& cur.len() == input.len()
    &&& perm.len() == input.len()
    &&& inv.len() == input.len()
    &&& forall|i: int|
        0 <= i < cur.len() ==> 0 <= #[trigger] perm[i] < input.len() && cur[i] == input[perm[i]]
            && inv[perm[i]] == i
    &&& forall|k: int|
        0 <= k < input.len() ==> 0 <= #[trigger] inv[k] < cur.len() && perm[inv[k]] == k
    &&& forall|i: int, j: int|
        0 <= i < j < cur.len() && (#[trigger] cur[i]).total_score == (
        #[trigger] cur[j]).total_score ==> perm[i] < perm[j]
}

/// Exchanging two neighbours whose scores differ keeps the track.
proof fn lemma_exchange_tracks(
    input: Seq<PlayerScore>,
    cur: Seq<PlayerScore>,
    perm: Seq<int>,
    inv: Seq<int>,
    j: int,
)
    requires
        tracks(input, cur, perm, inv),
        0 <= j,
        j + 1 < cur.len(),
        cur[j].total_score != cur[j + 1].total_score,
    ensures
        tracks(
            input,
            cur.update(j, cur[j + 1]).update(j + 1, cur[j]),
            perm.update(j, perm[j + 1]).update(j + 1, perm[j]),
            inv.update(perm[j], j + 1).update(perm[j + 1], j),
        ),
{
    let cur2 = cur.update(j, cur[j + 1]).update(j + 1, cur[j]);
    let perm2 = perm.update(j, perm[j + 1]).update(j + 1, perm[j]);
    let inv2 = inv.update(perm[j], j + 1).update(perm[j + 1], j);
    assert(perm[j] != perm[j + 1]) by {
        assert(inv[perm[j]] == j);
        assert(inv[perm[j + 1]] == j + 1);
    }
    assert forall|i: int| 0 <= i < cur2.len() implies 0 <= #[trigger] perm2[i] < input.len()
        && cur2[i] == input[perm2[i]] && inv2[perm2[i]] == i by {
        if i != j && i != j + 1 {
            assert(perm2[i] == perm[i]);
            assert(inv[perm[i]] == i);
            assert(perm[i] != perm[j]) by {
                assert(inv[perm[j]] == j);
            }
            assert(perm[i] != perm[j + 1]) by {
                assert(inv[perm[j + 1]] == j + 1);
            }
        }
    }
    assert forall|k: int| 0 <= k < input.len() implies 0 <= #[trigger] inv2[k] < cur2.len()
        && perm2[inv2[k]] == k by {
        if k != perm[j] && k != perm[j + 1] {
            assert(inv2[k] == inv[k]);
            assert(perm[inv[k]] == k);
        }
    }
    assert forall|a: int, b: int|
        0 <= a < b < cur2.len() && (#[trigger] cur2[a]).total_score == (
        #[trigger] cur2[b]).total_score implies perm2[a] < perm2[b] by {
        let a0 = if a == j {
            j + 1
        } else if a == j + 1 {
            j
        } else {
            a
        };
        let b0 = if b == j {
            j + 1
        } else if b == j + 1 {
            j
        } else {
            b
        };
        assert(cur2[a] == cur[a0] && cur2[b] == cur[b0]);
        assert(perm2[a] == perm[a0] && perm2[b] == perm[b0]);
        assert(cur[a0].total_score == cur[b0].total_score);
        assert(a0 < b0);
    }
}

/// What the track says of the lines, said without it.
proof fn lemma_tracks_arranged(
    input: Seq<PlayerScore>,
    cur: Seq<PlayerScore>,
    perm: Seq<int>,
    inv: Seq<int>,
)
    requires
        tracks(input, cur, perm, inv),
        distinct_players(input),
        descending(cur),
    ensures
        arranged(input, cur),
        distinct_players(cur),
{
    assert forall|k: int| 0 <= k < input.len() implies appears_in(#[trigger] input[k], cur) by {
        reveal(appears_in);
        let i = inv[k];
        assert(perm[i] == k);
        assert(same_entry(cur[i], input[k]));
    }
    assert forall|i: int| 0 <= i < cur.len() implies appears_in(#[trigger] cur[i], input) by {
        reveal(appears_in);
        let k = perm[i];
        assert(same_entry(input[k], cur[i]));
    }
    assert forall|i: int, j: int|
        0 <= i < j < cur.len() && (#[trigger] cur[i]).total_score == (
        #[trigger] cur[j]).total_score implies index_of(input, cur[i].player) < index_of(
        input,
        cur[j].player,
    ) by {
        lemma_index_of(input, perm[i]);
        lemma_index_of(input, perm[j]);
    }
    assert forall|i: int, j: int|
        0 <= i < cur.len() && 0 <= j < cur.len() && i != j implies (#[trigger] cur[i]).player != (
    #[trigger] cur[j]).player by {
        assert(inv[perm[i]] == i);
        assert(inv[perm[j]] == j);
        assert(perm[i] != perm[j]);
    }
}

/// Sorts the lines from the highest score down by exchanging neighbours,
/// pass after pass. A pair is exchanged only where the left score is
/// strictly lower, so equal scores never pass each other.
pub fn sort_descending(rows: &mut Vec<PlayerScore>)
    requires
        distinct_players(old(rows)@),
    ensures
        arranged(old(rows)@, final(rows)@),
        distinct_players(final(rows)@),
        forall|i: int| 0 <= i < final(rows)@.len() ==> old(rows)@.contains(#[trigger] final(rows)@[i]),
{
    let n: usize = rows.len();
    let ghost input: Seq<PlayerScore> = rows@;
    let ghost mut perm: Seq<int> = Seq::new(n as nat, |i: int| i);
    let ghost mut inv: Seq<int> = Seq::new(n as nat, |i: int| i);
    let mut done: usize = 0;
    while done < n
        invariant
            rows@.len() == n,
            done <= n,
            tracks(input, rows@, perm, inv),
            forall|p: int, q: int|
                0 <= p < q < n && n - done <= q ==> (#[trigger] rows@[p]).total_score >= (
                #[trigger] rows@[q]).total_score,
        decreases n - done,
    {
        let mut j: usize = 0;
        while j + 1 < n - done
            invariant
                rows@.len() == n,
                done < n,
                j < n - done,
                tracks(input, rows@, perm, inv),
                forall|p: int, q: int|
                    0 <= p < q < n && n - done <= q ==> (#[trigger] rows@[p]).total_score >= (
                    #[trigger] rows@[q]).total_score,
                forall|p: int| 0 <= p < j ==> (#[trigger] rows@[p]).total_score >= rows@[j as int].total_score,
            decreases n - done - j,
        {
            let curr: PlayerScore = rows[j];
            let next: PlayerScore = rows[j + 1];
            if curr.total_score < next.total_score {
                proof {
                    lemma_exchange_tracks(input, rows@, perm, inv, j as int);
                    inv = inv.update(perm[j as int], j + 1).update(perm[j + 1], j as int);
                    perm = perm.update(j as int, perm[j + 1]).update(j + 1, perm[j as int]);
                }
                rows.set(j, next);
                rows.set(j + 1, curr);
            }
            j = j + 1;
        }
        done = done + 1;
    }
    proof {
        lemma_tracks_arranged(input, rows@, perm, inv);
        assert forall|i: int| 0 <= i < rows@.len() implies input.contains(#[trigger] rows@[i]) by {
            assert(rows@[i] == input[perm[i]]);
        }
    }
}

/// The line of a player after one more game with `score`.
pub open spec fn after_game(row: PlayerScore, score: u64) -> PlayerScore {
    PlayerScore {
        player: row.player,
        total_games: (row.total_games + 1) as u32,
        total_score: (row.total_score + score) as u64,
        rank: row.rank,
    }
}

/// The first line of a player, before it has a place.
pub open spec fn first_game(player: u64, score: u64) -> PlayerScore {
    PlayerScore { player, total_games: 1, total_score: score, rank: 0 }
}

/// The lines with one more game counted: on the player's own line where
/// there is one, else on a new line at the end.
pub open spec fn upserted(s: Seq<PlayerScore>, player: u64, score: u64) -> Seq<PlayerScore> {
    if has_player(s, player) {
        let i = index_of(s, player);
        s.update(i, after_game(s[i], score))
    } else {
        s.push(first_game(player, score))
    }
}

/// Counting a game adds a line for a new player and none for a known one.
pub proof fn lemma_upserted_len(s: Seq<PlayerScore>, player: u64, score: u64)
    ensures
        upserted(s, player, score).len() == (if has_player(s, player) {
            s.len()
        } else {
            s.len() + 1
        }),
{
    if has_player(s, player) {
        let i = index_of(s, player);
        assert(0 <= i < s.len());
    }
}

/// Whether one more game with `score` can be counted for `player` without
/// a counter running over.
pub open spec fn can_count(s: Seq<PlayerScore>, player: u64, score: u64) -> bool {
    if has_player(s, player) {
        let row = s[index_of(s, player)];
        row.total_games < u32::MAX && row.total_score + score <= u64::MAX
    } else {
        s.len() < u32::MAX
    }
}

/// A board as it stands between two calls: one line per player, from the
/// highest score down, each line carrying its place.
pub open spec fn well_ranked(s: Seq<PlayerScore>) -> bool {
    &&& s.len() <= u32::MAX
    &&& distinct_players(s)
    &&& descending(s)
    &&& ranked(s)
}

/// Lines that agree place by place, but for the rank.
spec fn agree(a: Seq<PlayerScore>, b: Seq<PlayerScore>) -> bool {
    &&& a.len() == b.len()
    &&& forall|i: int| 0 <= i < a.len() ==> same_entry(#[trigger] a[i], b[i])
}

proof fn lemma_agree_descending(sorted: Seq<PlayerScore>, out: Seq<PlayerScore>)
    requires
        agree(out, sorted),
        descending(sorted),
    ensures
        descending(out),
{
    assert forall|i: int, j: int| 0 <= i < j < out.len() implies (#[trigger] out[i]).total_score
        >= (#[trigger] out[j]).total_score by {
        assert(same_entry(out[i], sorted[i]));
        assert(same_entry(out[j], sorted[j]));
        assert(sorted[i].total_score >= sorted[j].total_score);
    }
}

proof fn lemma_agree_distinct(sorted: Seq<PlayerScore>, out: Seq<PlayerScore>)
    requires
        agree(out, sorted),
        distinct_players(sorted),
    ensures
        distinct_players(out),
{
    assert forall|i: int, j: int|
        0 <= i < out.len() && 0 <= j < out.len() && i != j implies (#[trigger] out[i]).player != (
    #[trigger] out[j]).player by {
        assert(same_entry(out[i], sorted[i]));
        assert(same_entry(out[j], sorted[j]));
        assert(sorted[i].player != sorted[j].player);
    }
}

proof fn lemma_agree_nothing_lost(
    input: Seq<PlayerScore>,
    sorted: Seq<PlayerScore>,
    out: Seq<PlayerScore>,
)
    requires
        agree(out, sorted),
        forall|k: int| 0 <= k < input.len() ==> appears_in(#[trigger] input[k], sorted),
    ensures
        forall|k: int| 0 <= k < input.len() ==> appears_in(#[trigger] input[k], out),
{
    assert forall|k: int| 0 <= k < input.len() implies appears_in(#[trigger] input[k], out) by {
        reveal(appears_in);
        assert(appears_in(input[k], sorted));
        let i = choose|i: int| 0 <= i < sorted.len() && same_entry(#[trigger] sorted[i], input[k]);
        assert(same_entry(out[i], sorted[i]));
        assert(same_entry(out[i], input[k]));
    }
}

proof fn lemma_agree_nothing_invented(
    input: Seq<PlayerScore>,
    sorted: Seq<PlayerScore>,
    out: Seq<PlayerScore>,
)
    requires
        agree(out, sorted),
        forall|i: int| 0 <= i < sorted.len() ==> appears_in(#[trigger] sorted[i], input),
    ensures
        forall|i: int| 0 <= i < out.len() ==> appears_in(#[trigger] out[i], input),
{
    assert forall|i: int| 0 <= i < out.len() implies appears_in(#[trigger] out[i], input) by {
        reveal(appears_in);
        assert(same_entry(out[i], sorted[i]));
        assert(appears_in(sorted[i], input));
        let k = choose|k: int| 0 <= k < input.len() && same_entry(#[trigger] input[k], sorted[i]);
        assert(same_entry(input[k], out[i]));
    }
}

proof fn lemma_agree_ties(input: Seq<PlayerScore>, sorted: Seq<PlayerScore>, out: Seq<PlayerScore>)
    requires
        agree(out, sorted),
        forall|i: int, j: int|
            0 <= i < j < sorted.len() && (#[trigger] sorted[i]).total_score == (
            #[trigger] sorted[j]).total_score ==> index_of(input, sorted[i].player) < index_of(
                input,
                sorted[j].player,
            ),
    ensures
        forall|i: int, j: int|
            0 <= i < j < out.len() && (#[trigger] out[i]).total_score == (
            #[trigger] out[j]).total_score ==> index_of(input, out[i].player) < index_of(
                input,
                out[j].player,
            ),
{
    assert forall|i: int, j: int|
        0 <= i < j < out.len() && (#[trigger] out[i]).total_score == (
        #[trigger] out[j]).total_score implies index_of(input, out[i].player) < index_of(
        input,
        out[j].player,
    ) by {
        assert(same_entry(out[i], sorted[i]));
        assert(same_entry(out[j], sorted[j]));
        assert(sorted[i].total_score == sorted[j].total_score);
        assert(index_of(input, sorted[i].player) < index_of(input, sorted[j].player));
    }
}

/// Giving each line its place as rank changes nothing else of an
/// arrangement.
proof fn lemma_ranks_keep_arranged(
    input: Seq<PlayerScore>,
    sorted: Seq<PlayerScore>,
    out: Seq<PlayerScore>,
)
    requires
        arranged(input, sorted),
        distinct_players(sorted),
        agree(out, sorted),
    ensures
        arranged(input, out),
        distinct_players(out),
{
    lemma_agree_descending(sorted, out);
    lemma_agree_distinct(sorted, out);
    lemma_agree_nothing_lost(input, sorted, out);
    lemma_agree_nothing_invented(input, sorted, out);
    lemma_agree_ties(input, sorted, out);
}

/// Where `row` stands in `s`, by its entry.
spec fn place_of(row: PlayerScore, s: Seq<PlayerScore>) -> int {
    choose|i: int| 0 <= i < s.len() && same_entry(#[trigger] s[i], row)
}

/// A line of one arrangement is found in any other arrangement of the same
/// input.
proof fn lemma_found_in_other(
    input: Seq<PlayerScore>,
    a: Seq<PlayerScore>,
    b: Seq<PlayerScore>,
    i: int,
)
    requires
        forall|j: int| 0 <= j < a.len() ==> appears_in(#[trigger] a[j], input),
        forall|k: int| 0 <= k < input.len() ==> appears_in(#[trigger] input[k], b),
        0 <= i < a.len(),
    ensures
        0 <= place_of(a[i], b) < b.len(),
        same_entry(b[place_of(a[i], b)], a[i]),
{
    reveal(appears_in);
    assert(appears_in(a[i], input));
    let k = choose|k: int| 0 <= k < input.len() && same_entry(#[trigger] input[k], a[i]);
    assert(appears_in(input[k], b));
    let q = choose|q: int| 0 <= q < b.len() && same_entry(#[trigger] b[q], input[k]);
    assert(same_entry(b[q], a[i]));
}

proof fn lemma_prefix_agrees(
    input: Seq<PlayerScore>,
    a: Seq<PlayerScore>,
    b: Seq<PlayerScore>,
    n: int,
)
    requires
        arranged(input, a),
        arranged(input, b),
        distinct_players(a),
        distinct_players(b),
        0 <= n <= a.len(),
    ensures
        forall|j: int| 0 <= j < n ==> same_entry(#[trigger] a[j], b[j]),
    decreases n,
{
    if n > 0 {
        lemma_prefix_agrees(input, a, b, n - 1);
        let i = n - 1;
        lemma_found_in_other(input, a, b, i);
        lemma_found_in_other(input, b, a, i);
        let q = place_of(a[i], b);
        let p = place_of(b[i], a);
        if q < i {
            assert(same_entry(a[q], b[q]));
            assert(a[q].player == a[i].player);
        }
        if p < i {
            assert(same_entry(a[p], b[p]));
            assert(b[p].player == b[i].player);
        }
        if q > i && p > i {
            assert(b[i].total_score >= b[q].total_score);
            assert(a[i].total_score >= a[p].total_score);
            assert(b[i].total_score == b[q].total_score);
            assert(a[i].total_score == a[p].total_score);
            assert(index_of(input, b[i].player) < index_of(input, b[q].player));
            assert(index_of(input, a[i].player) < index_of(input, a[p].player));
        }
        if q > i && p == i {
            assert(same_entry(a[i], b[i]));
        }
    }
}

/// An input has one ranking only: two boards that both arrange the same
/// input, each with one line per player and every line carrying its place,
/// are the same board. So the order, the tie-break and the ranks pin the
/// board down.
pub proof fn lemma_ranking_is_unique(
    input: Seq<PlayerScore>,
    a: Seq<PlayerScore>,
    b: Seq<PlayerScore>,
)
    requires
        arranged(input, a),
        arranged(input, b),
        distinct_players(a),
        distinct_players(b),
        ranked(a),
        ranked(b),
    ensures
        a == b,
{
    lemma_prefix_agrees(input, a, b, a.len() as int);
    assert forall|i: int| 0 <= i < a.len() implies a[i] == b[i] by {
        assert(same_entry(a[i], b[i]));
        assert(a[i].rank == i + 1);
        assert(b[i].rank == i + 1);
    }
    assert(a =~= b);
}

/// The ranking of all players of one round.
pub struct Leaderboard {
    rows: Vec<PlayerScore>,
}

impl View for Leaderboard {
    type V = Seq<PlayerScore>;

    closed spec fn view(&self) -> Seq<PlayerScore> {
        self.rows@
    }
}

impl Leaderboard {
    pub open spec fn wf(&self) -> bool {
        well_ranked(self@)
    }

    pub fn new() -> (b: Leaderboard)
        ensures
            b.wf(),
            b@.len() == 0,
    {
        Leaderboard { rows: Vec::new() }
    }

    /// Takes a board as it was stored, if it is one: at most one line per
    /// player, from the highest score down, each line carrying its place.
    pub fn restore(rows: Vec<PlayerScore>) -> (r: Option<Leaderboard>)
        ensures
            r is Some <==> well_ranked(rows@),
            r matches Some(b) ==> b.wf() && b@ == rows@,
    {
        let n: usize = rows.len();
        if n > u32::MAX as usize {
            return None;
        }
        let mut i: usize = 0;
        while i < n
            invariant
                n == rows@.len(),
                n <= u32::MAX,
                i <= n,
                forall|k: int| 0 <= k < i ==> (#[trigger] rows@[k]).rank == k + 1,
                forall|a: int, b: int|
                    0 <= a < b < i ==> (#[trigger] rows@[a]).total_score >= (
                    #[trigger] rows@[b]).total_score,
                forall|a: int, b: int|
                    0 <= a < b < i ==> (#[trigger] rows@[a]).player != (#[trigger] rows@[b]).player,
            decreases n - i,
        {
            let row: PlayerScore = rows[i];
            if row.rank != (i + 1) as u32 {
                assert(rows@[i as int].rank != i + 1);
                return None;
            }
            if i > 0 && rows[i - 1].total_score < row.total_score {
                assert(rows@[i - 1].total_score < rows@[i as int].total_score);
                return None;
            }
            let mut j: usize = 0;
            while j < i
                invariant
                    i < n,
                    n == rows@.len(),
                    j <= i,
                    row == rows@[i as int],
                    forall|a: int| 0 <= a < j ==> (#[trigger] rows@[a]).player != row.player,
                decreases i - j,
            {
                if rows[j].player == row.player {
                    assert(rows@[j as int].player == rows@[i as int].player);
                    return None;
                }
                j = j + 1;
            }
            assert forall|a: int| 0 <= a < i implies (#[trigger] rows@[a]).total_score
                >= row.total_score by {
                if a < i - 1 {
                    assert(rows@[a].total_score >= rows@[i - 1].total_score);
                }
            }
            i = i + 1;
        }
        Some(Leaderboard { rows })
    }

    /// How many players have a line.
    pub fn len(&self) -> (n: u32)
        requires
            self.wf(),
        ensures
            n == self@.len(),
    {
        self.rows.len() as u32
    }

    /// All the lines, best first.
    pub fn rows(&self) -> (r: &Vec<PlayerScore>)
        ensures
            r@ == self@,
    {
        &self.rows
    }

    /// Where the line of `player` stands.
    pub fn position(&self, player: u64) -> (r: Option<usize>)
        requires
            self.wf(),
        ensures
            r is Some <==> has_player(self@, player),
            r matches Some(i) ==> i == index_of(self@, player) && i < self@.len(),
    {
        let mut i: usize = 0;
        while i < self.rows.len()
            invariant
                i <= self.rows@.len(),
                distinct_players(self.rows@),
                forall|k: int| 0 <= k < i ==> (#[trigger] self.rows@[k]).player != player,
            decreases self.rows@.len() - i,
        {
            if self.rows[i].player == player {
                proof {
                    lemma_index_of(self.rows@, i as int);
                }
                return Some(i);
            }
            i = i + 1;
        }
        None
    }

    /// The line of `player`, if the player has submitted a score.
    pub fn find(&self, player: u64) -> (r: Option<PlayerScore>)
        requires
            self.wf(),
        ensures
            r == (if has_player(self@, player) {
                Some(self@[index_of(self@, player)])
            } else {
                None
            }),
    {
        match self.position(player) {
            Some(i) => Some(self.rows[i]),
            None => None,
        }
    }

    /// Whether one more game with `score` can be counted for `player`
    /// without a counter running over.
    pub fn can_record(&self, player: u64, score: u64) -> (r: bool)
        requires
            self.wf(),
        ensures
            r == can_count(self@, player, score),
    {
        match self.position(player) {
            Some(i) => {
                let row: PlayerScore = self.rows[i];
                row.total_games < u32::MAX && score <= u64::MAX - row.total_score
            },
            None => self.rows.len() < u32::MAX as usize,
        }
    }

    /// Counts one more game with `score` for `player`, then puts the board
    /// in order again and gives every line its place. Says whether the
    /// player is new to the board.
    pub fn record(&mut self, player: u64, score: u64) -> (is_new: bool)
        requires
            old(self).wf(),
            can_count(old(self)@, player, score),
        ensures
            final(self).wf(),
            is_new == !has_player(old(self)@, player),
            arranged(upserted(old(self)@, player, score), final(self)@),
    {
        let ghost before = self.rows@;
        let found = self.position(player);
        let is_new = match found {
            Some(i) => {
                let row: PlayerScore = self.rows[i];
                self.rows.set(
                    i,
                    PlayerScore {
                        player: row.player,
                        total_games: row.total_games + 1,
                        total_score: row.total_score + score,
                        rank: row.rank,
                    },
                );
                false
            },
            None => {
                self.rows.push(PlayerScore { player, total_games: 1, total_score: score, rank: 0 });
                true
            },
        };
        let ghost updated = self.rows@;
        assert(updated == upserted(before, player, score));
        assert(distinct_players(updated));
        sort_descending(&mut self.rows);
        let ghost sorted = self.rows@;
        let n: usize = self.rows.len();
        let mut i: usize = 0;
        while i < n
            invariant
                n == sorted.len(),
                n <= u32::MAX,
                i <= n,
                self.rows@.len() == n,
                agree(self.rows@, sorted),
                forall|k: int| 0 <= k < i ==> (#[trigger] self.rows@[k]).rank == k + 1,
            decreases n - i,
        {
            let row: PlayerScore = self.rows[i];
            self.rows.set(
                i,
                PlayerScore {
                    player: row.player,
                    total_games: row.total_games,
                    total_score: row.total_score,
                    rank: (i + 1) as u32,
                },
            );
            i = i + 1;
        }
        proof {
            lemma_ranks_keep_arranged(updated, sorted, self.rows@);
        }
        is_new
    }
}

} // verus!
