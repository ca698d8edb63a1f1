//! Colour description of a feature candidate: the average colour of its
//! coloured points, named.

use vstd::prelude::*;

verus! {

/// Sum of channel `ch` over the coloured points among the first `n` of `members`.
pub open spec fn member_channel_sum(colors: Seq<Option<[u8; 3]>>, members: Seq<usize>, ch: int, n: int) -> int
    decreases n,
{
    if n <= 0 {
        0
    } else {
        member_channel_sum(colors, members, ch, n - 1) + match colors[members[n - 1] as int] {
            Some(c) => c[ch] as int,
            None => 0int,
        }
    }
}

/// Number of coloured points among the first `n` of `members`.
pub open spec fn member_colored_count(colors: Seq<Option<[u8; 3]>>, members: Seq<usize>, n: int) -> int
    decreases n,
{
    if n <= 0 {
        0
    } else {
        member_colored_count(colors, members, n - 1) + if colors[members[n - 1] as int] is Some { 1int } else { 0int }
    }
}

proof fn lemma_member_sums_bound(colors: Seq<Option<[u8; 3]>>, members: Seq<usize>, ch: int, n: int)
    requires
        0 <= n,
        0 <= ch < 3,
    ensures
        0 <= member_channel_sum(colors, members, ch, n) <= 255 * member_colored_count(colors, members, n),
        0 <= member_colored_count(colors, members, n) <= n,
    decreases n,
{
    if n > 0 {
        lemma_member_sums_bound(colors, members, ch, n - 1);
    }
}

/// Name of an average colour with channels `r`, `g`, `b` (each 0 to 255):
/// white when every channel is above 200; gray when the channels lie within
/// 30 of each other and the brightest is above 50; green when green is above
/// 80 and more than 1.2 times both red and blue (`5g > 6r`, `5g > 6b`);
/// brown for warm earth tones (red above 80 and above green, green above 40
/// and above blue); mixed otherwise.
pub open spec fn rgb_name(r: int, g: int, b: int) -> Seq<char> {
    let max_c = if r >= g && r >= b { r } else if g >= b { g } else { b };
    let min_c = if r <= g && r <= b { r } else if g <= b { g } else { b };
    if r > 200 && g > 200 && b > 200 {
        "white"@
    } else if max_c - min_c < 30 && max_c > 50 {
        "gray"@
    } else if g > 80 && 5 * g > 6 * r && 5 * g > 6 * b {
        "green"@
    } else if r > 80 && r > g && g > 40 && b < g {
        "brown"@
    } else {
        "mixed"@
    }
}

/// Dominant colour name of the points `members`: `unknown` when none of them
/// has a colour, else the name of their average colour (each channel's sum
/// divided by the number of coloured points, rounded down).
pub open spec fn dominant_color_name(colors: Seq<Option<[u8; 3]>>, members: Seq<usize>) -> Seq<char> {
    let n = members.len() as int;
    let cnt = member_colored_count(colors, members, n);
    if cnt == 0 {
        "unknown"@
    } else {
        rgb_name(
            member_channel_sum(colors, members, 0, n) / cnt,
            member_channel_sum(colors, members, 1, n) / cnt,
            member_channel_sum(colors, members, 2, n) / cnt,
        )
    }
}

fn name_rgb(r: u64, g: u64, b: u64) -> (s: &'static str)
    requires
        r <= 255 && g <= 255 && b <= 255,
    ensures
        s@ == rgb_name(r as int, g as int, b as int),
{
    proof {
        reveal_strlit("white");
        reveal_strlit("gray");
        reveal_strlit("green");
        reveal_strlit("brown");
        reveal_strlit("mixed");
    }
    if r > 200 && g > 200 && b > 200 {
        return "white";
    }
    let max_c = if r >= g && r >= b { r } else if g >= b { g } else { b };
    let min_c = if r <= g && r <= b { r } else if g <= b { g } else { b };
    if max_c - min_c < 30 && max_c > 50 {
        return "gray";
    }
    if g > 80 && 5 * g > 6 * r && 5 * g > 6 * b {
        return "green";
    }
    if r > 80 && r > g && g > 40 && b < g {
        return "brown";
    }
    "mixed"
}

/// Classify the dominant colour of the points at `members`.
pub fn classify_color(colors: &[Option<[u8; 3]>], members: &[usize]) -> (s: &'static str)
    requires
        forall|k: int| 0 <= k < members@.len() ==> (#[trigger] members@[k]) < colors@.len(),
    ensures
        s@ == dominant_color_name(colors@, members@),
{
    let mut sum_r: u128 = 0;
    let mut sum_g: u128 = 0;
    let mut sum_b: u128 = 0;
    let mut count: u128 = 0;
    let mut k: usize = 0;
    while k < members.len()
        invariant
            k <= members@.len(),
            forall|j: int| 0 <= j < members@.len() ==> (#[trigger] members@[j]) < colors@.len(),
            sum_r == member_channel_sum(colors@, members@, 0, k as int),
            sum_g == member_channel_sum(colors@, members@, 1, k as int),
            sum_b == member_channel_sum(colors@, members@, 2, k as int),
            count == member_colored_count(colors@, members@, k as int),
        decreases members@.len() - k,
    {
        proof {
            lemma_member_sums_bound(colors@, members@, 0, k as int);
            lemma_member_sums_bound(colors@, members@, 1, k as int);
            lemma_member_sums_bound(colors@, members@, 2, k as int);
        }
        match colors[members[k]] {
            Some(c) => {
                sum_r = sum_r + c[0] as u128;
                sum_g = sum_g + c[1] as u128;
                sum_b = sum_b + c[2] as u128;
                count = count + 1;
            },
            None => {},
        }
        k = k + 1;
    }
    if count == 0 {
        proof {
            reveal_strlit("unknown");
        }
        return "unknown";
    }
    proof {
        let n = members@.len() as int;
        assert forall|ch: int| 0 <= ch < 3 implies #[trigger] member_channel_sum(colors@, members@, ch, n) / (count as int) <= 255 by {
            lemma_member_sums_bound(colors@, members@, ch, n);
            let sm = member_channel_sum(colors@, members@, ch, n);
            assert(sm / (count as int) <= 255) by (nonlinear_arith)
                requires
                    0 <= sm <= 255 * (count as int),
                    count > 0,
            ;
        }
        assert(member_channel_sum(colors@, members@, 0, n) / (count as int) <= 255);
        assert(member_channel_sum(colors@, members@, 1, n) / (count as int) <= 255);
        assert(member_channel_sum(colors@, members@, 2, n) / (count as int) <= 255);
    }
    name_rgb((sum_r / count) as u64, (sum_g / count) as u64, (sum_b / count) as u64)
}

/// How an average colour is named, channel by channel (each channel 0 to
/// 255): "white" exactly when all three channels exceed 200; otherwise
/// "gray" exactly when every two channels differ by less than 30 and some
/// channel exceeds 50; otherwise "green" exactly when green exceeds 80 and
/// exceeds 1.2 times red and 1.2 times blue; otherwise "brown" exactly when
/// red exceeds 80 and green, and green exceeds 40 and blue; and "mixed" in
/// every remaining case. The five names are distinct.
pub proof fn colour_names_by_channel(r: int, g: int, b: int)
    requires
        0 <= r <= 255,
        0 <= g <= 255,
        0 <= b <= 255,
    ensures
        ({
            let white = r > 200 && g > 200 && b > 200;
            let gray = -30 < r - g < 30 && -30 < g - b < 30 && -30 < r - b < 30 && (r > 50 || g > 50 || b > 50);
            let green = g > 80 && 5 * g > 6 * r && 5 * g > 6 * b;
            let brown = r > 80 && r > g && g > 40 && g > b;
            &&& (rgb_name(r, g, b) == "white"@) <==> white
            &&& (rgb_name(r, g, b) == "gray"@) <==> (!white && gray)
            &&& (rgb_name(r, g, b) == "green"@) <==> (!white && !gray && green)
            &&& (rgb_name(r, g, b) == "brown"@) <==> (!white && !gray && !green && brown)
            &&& (rgb_name(r, g, b) == "mixed"@) <==> (!white && !gray && !green && !brown)
        }),
{
    reveal_strlit("white");
    reveal_strlit("gray");
    reveal_strlit("green");
    reveal_strlit("brown");
    reveal_strlit("mixed");
    assert("gray"@.len() == 4 && "green"@.len() == 5);
    assert("white"@[0] == 'w' && "gray"@[0] == 'g' && "green"@[0] == 'g' && "brown"@[0] == 'b' && "mixed"@[0] == 'm');
    assert("white"@ != "gray"@ && "white"@ != "green"@ && "white"@ != "brown"@ && "white"@ != "mixed"@);
    assert("gray"@ != "green"@ && "gray"@ != "brown"@ && "gray"@ != "mixed"@);
    assert("green"@ != "brown"@ && "green"@ != "mixed"@ && "brown"@ != "mixed"@);
}

/// The dominant colour of a single coloured point is the name of its own
/// colour; points without colour give "unknown".
pub proof fn dominant_colour_of_one_point(colors: Seq<Option<[u8; 3]>>, m: usize)
    requires
        m < colors.len(),
    ensures
        colors[m as int] matches Some(c) ==> dominant_color_name(colors, seq![m]) == rgb_name(c[0] as int, c[1] as int, c[2] as int),
        colors[m as int] is None ==> dominant_color_name(colors, seq![m]) == "unknown"@,
{
    let members = seq![m];
    assert(members[0] == m);
    assert(member_colored_count(colors, members, 0) == 0);
    assert(member_channel_sum(colors, members, 0, 0) == 0);
    assert(member_channel_sum(colors, members, 1, 0) == 0);
    assert(member_channel_sum(colors, members, 2, 0) == 0);
}

/// Points without a colour do not change the dominant colour: adding one to
/// the members leaves the name as it was.
pub proof fn uncoloured_point_does_not_count(colors: Seq<Option<[u8; 3]>>, members: Seq<usize>, m: usize)
    requires
        m < colors.len(),
        colors[m as int] is None,
    ensures
        dominant_color_name(colors, members.push(m)) == dominant_color_name(colors, members),
{
    let more = members.push(m);
    let n = members.len() as int;
    lemma_prefix_sums_agree(colors, members, more, 0, n);
    assert(more[n] == m);
    assert(member_channel_sum(colors, more, 0, n + 1) == member_channel_sum(colors, members, 0, n));
    assert(member_channel_sum(colors, more, 1, n + 1) == member_channel_sum(colors, members, 1, n)) by {
        lemma_prefix_sums_agree(colors, members, more, 1, n);
    }
    assert(member_channel_sum(colors, more, 2, n + 1) == member_channel_sum(colors, members, 2, n)) by {
        lemma_prefix_sums_agree(colors, members, more, 2, n);
    }
    assert(member_colored_count(colors, more, n + 1) == member_colored_count(colors, members, n));
}

proof fn lemma_prefix_sums_agree(colors: Seq<Option<[u8; 3]>>, members: Seq<usize>, more: Seq<usize>, ch: int, k: int)
    requires
        0 <= k <= members.len(),
        members.len() <= more.len(),
        forall|i: int| 0 <= i < members.len() ==> #[trigger] more[i] == members[i],
    ensures
        member_channel_sum(colors, more, ch, k) == member_channel_sum(colors, members, ch, k),
        member_colored_count(colors, more, k) == member_colored_count(colors, members, k),
    decreases k,
{
    if k > 0 {
        lemma_prefix_sums_agree(colors, members, more, ch, k - 1);
        assert(more[k - 1] == members[k - 1]);
    }
}

} // verus!
