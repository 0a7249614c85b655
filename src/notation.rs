use vstd::prelude::*;
use crate::jihai::JihaiHand;
use crate::shanten::Hand;
use crate::suuhai::SuuhaiHand;

verus! {

pub open spec fn is_marker(c: char) -> bool {
    c == 'm' || c == 'p' || c == 's' || c == 'z'
}

pub open spec fn is_digit(c: char) -> bool {
    '0' <= c <= '9'
}

/// The first suit marker at or after position `i`.
pub open spec fn next_marker(cs: Seq<char>, i: int) -> Option<char>
    decreases cs.len() - i,
{
    if i < 0 || i >= cs.len() {
        None
    } else if is_marker(cs[i]) {
        Some(cs[i])
    } else {
        next_marker(cs, i + 1)
    }
}

/// Tile index of digit `d` under marker `mk`: a digit 0 is the five of its suit, and
/// honors take 1 to 7 only.
pub open spec fn tile_index(d: char, mk: char) -> Option<int> {
    let v = d as int - '0' as int;
    if mk == 'z' {
        if 1 <= v <= 7 {
            Some(27 + v - 1)
        } else {
            None
        }
    } else {
        let rank: int = if v == 0 {
            5
        } else {
            v
        };
        let base: int = if mk == 'm' {
            0
        } else if mk == 'p' {
            9
        } else {
            18
        };
        Some(base + rank - 1)
    }
}

/// The 34 counts after reading the first `n` characters, or `None` once the text is
/// rejected: each digit names a tile of the first suit marker after it, and a
/// character that is neither a digit nor a marker, a digit with no marker after it,
/// an honor outside 1 to 7, or a fifth copy of a tile is refused.
pub open spec fn parse_upto(cs: Seq<char>, n: int) -> Option<Seq<u8>>
    decreases n,
{
    if n <= 0 {
        Some(Seq::new(34, |i: int| 0u8))
    } else {
        match parse_upto(cs, n - 1) {
            None => None,
            Some(counts) => {
                let c = cs[n - 1];
                if is_marker(c) {
                    Some(counts)
                } else if !is_digit(c) {
                    None
                } else {
                    match next_marker(cs, n) {
                        None => None,
                        Some(mk) => match tile_index(c, mk) {
                            None => None,
                            Some(t) => if counts[t] >= 4 {
                                None
                            } else {
                                Some(counts.update(t, (counts[t] + 1) as u8))
                            },
                        },
                    }
                }
            },
        }
    }
}

pub open spec fn parse_hand(cs: Seq<char>) -> Option<Seq<u8>> {
    parse_upto(cs, cs.len() as int)
}

proof fn lemma_parse_len(cs: Seq<char>, n: int)
    ensures
        parse_upto(cs, n) matches Some(counts) ==> counts.len() == 34 && forall|i: int|
            0 <= i < 34 ==> #[trigger] counts[i] <= 4,
    decreases n,
{
    if n > 0 {
        lemma_parse_len(cs, n - 1);
    }
}

proof fn lemma_parse_stays_rejected(cs: Seq<char>, n: int, m: int)
    requires
        0 <= n <= m,
        parse_upto(cs, n) is None,
    ensures
        parse_upto(cs, m) is None,
    decreases m - n,
{
    if n < m {
        lemma_parse_stays_rejected(cs, n, m - 1);
    }
}

fn find_marker(cs: &Vec<char>, i: usize) -> (r: Option<char>)
    requires
        i <= cs.len(),
    ensures
        r == next_marker(cs@, i as int),
{
    let mut j = i;
    while j < cs.len()
        invariant
            i <= j <= cs.len(),
            next_marker(cs@, i as int) == next_marker(cs@, j as int),
        decreases cs.len() - j,
    {
        let c = cs[j];
        if c == 'm' || c == 'p' || c == 's' || c == 'z' {
            return Some(c);
        }
        j += 1;
    }
    None
}

fn chars_of(text: &str) -> (r: Vec<char>)
    ensures
        r@ == text@,
{
    let mut cs: Vec<char> = Vec::new();
    for ch in it: text.chars()
        invariant
            cs.len() == it.index(),
            forall|j: int| 0 <= j < cs.len() ==> cs@[j] == it.seq()[j],
    {
        cs.push(ch);
    }
    assert(cs@ =~= text@);
    cs
}

impl Hand {
    /// Reads a hand written as digits each followed, possibly after more digits, by its
    /// suit marker `m`, `p`, `s` or `z`, such as `123m456p789s11z`.
    pub fn parse(text: &str) -> (r: Result<Hand, ()>)
        ensures
            match parse_hand(text@) {
                Some(counts) => r matches Ok(h) && h@ == counts && h.wf(),
                None => r is Err,
            },
    {
        let cs = chars_of(text);
        let mut hand = Hand::new();
        let mut i: usize = 0;
        while i < cs.len()
            invariant
                i <= cs.len(),
                cs@ == text@,
                hand.wf(),
                parse_upto(cs@, i as int) == Some(hand@),
            decreases cs.len() - i,
        {
            let c = cs[i];
            if !(c == 'm' || c == 'p' || c == 's' || c == 'z' || ('0' <= c && c <= '9')) {
                proof {
                    lemma_parse_stays_rejected(cs@, i + 1, cs.len() as int);
                }
                return Err(());
            }
            if '0' <= c && c <= '9' {
                let mk = find_marker(&cs, i + 1);
                match mk {
                    None => {
                        proof {
                            lemma_parse_stays_rejected(cs@, i + 1, cs.len() as int);
                        }
                        return Err(());
                    },
                    Some(mk) => {
                        let v = (c as u32 - '0' as u32) as usize;
                        let t: usize;
                        if mk == 'z' {
                            if 1 <= v && v <= 7 {
                                t = 27 + v - 1;
                            } else {
                                proof {
                                    lemma_parse_stays_rejected(cs@, i + 1, cs.len() as int);
                                }
                                return Err(());
                            }
                        } else {
                            let rank = if v == 0 {
                                5
                            } else {
                                v
                            };
                            let base: usize = if mk == 'm' {
                                0
                            } else if mk == 'p' {
                                9
                            } else {
                                18
                            };
                            t = base + rank - 1;
                        }
                        if !hand.add_tile(t) {
                            proof {
                            lemma_parse_stays_rejected(cs@, i + 1, cs.len() as int);
                        }
                        return Err(());
                        }
                    },
                }
            }
            i += 1;
        }
        Ok(hand)
    }
}

impl std::str::FromStr for Hand {
    type Err = ();

    fn from_str(text: &str) -> (r: Result<Hand, ()>)
        ensures
            match parse_hand(text@) {
                Some(counts) => r matches Ok(h) && h@ == counts && h.wf(),
                None => r is Err,
            },
    {
        Hand::parse(text)
    }
}

/// What to draw for one character of a written hand.
#[derive(Clone, Copy, Debug, PartialEq, Eq)]
pub enum TileImage {
    /// `?`: an unknown tile.
    Blank,
    /// `_`: a tile face down.
    Back,
    /// ` `: a gap before the next tile.
    Gap,
    /// A digit and the first suit marker after it.
    Tile { suit: char, digit: u8 },
}

/// The images for the first `n` characters: digits without a later marker and other
/// characters draw nothing.
pub open spec fn images_upto(cs: Seq<char>, n: int) -> Seq<TileImage>
    decreases n,
{
    if n <= 0 {
        Seq::empty()
    } else {
        let prev = images_upto(cs, n - 1);
        let c = cs[n - 1];
        if c == '?' {
            prev.push(TileImage::Blank)
        } else if c == '_' {
            prev.push(TileImage::Back)
        } else if c == ' ' {
            prev.push(TileImage::Gap)
        } else if is_digit(c) {
            match next_marker(cs, n) {
                Some(mk) => prev.push(TileImage::Tile { suit: mk, digit: (c as int - '0' as int) as u8 }),
                None => prev,
            }
        } else {
            prev
        }
    }
}

/// The images to draw for a written hand, one per tile, unknown tile, face-down tile
/// or gap.
pub fn tile_images(text: &str) -> (r: Vec<TileImage>)
    ensures
        r@ == images_upto(text@, text@.len() as int),
{
    let cs = chars_of(text);
    let mut r: Vec<TileImage> = Vec::new();
    let mut i: usize = 0;
    while i < cs.len()
        invariant
            i <= cs.len(),
            cs@ == text@,
            r@ == images_upto(cs@, i as int),
        decreases cs.len() - i,
    {
        let c = cs[i];
        if c == '?' {
            r.push(TileImage::Blank);
        } else if c == '_' {
            r.push(TileImage::Back);
        } else if c == ' ' {
            r.push(TileImage::Gap);
        } else if '0' <= c && c <= '9' {
            match find_marker(&cs, i + 1) {
                Some(mk) => {
                    r.push(TileImage::Tile { suit: mk, digit: (c as u32 - '0' as u32) as u8 });
                },
                None => {},
            }
        }
        i += 1;
    }
    r
}

} // verus!
