//! The lanes of a road and their one-line notation.
//!
//! A road is written as the letters of its forward lanes, a slash, and the
//! letters of its backward lanes: `dps/dps` is a driving lane, a parking
//! lane and a sidewalk each way.

use vstd::prelude::*;
use vstd::string::StringExecFns;

verus! {

#[derive(Clone, Copy, Debug, PartialEq, Eq, Structural)]
pub enum LaneType {
    Driving,
    Parking,
    Sidewalk,
    Biking,
    Bus,
}

/// The letter that stands for a kind of lane.
pub open spec fn lane_letter(lt: LaneType) -> char {
    match lt {
        LaneType::Driving => 'd',
        LaneType::Parking => 'p',
        LaneType::Sidewalk => 's',
        LaneType::Biking => 'b',
        LaneType::Bus => 'u',
    }
}

/// The kind of lane that a letter stands for, if any.
pub open spec fn letter_lane(c: char) -> Option<LaneType> {
    if c == 'd' {
        Some(LaneType::Driving)
    } else if c == 'p' {
        Some(LaneType::Parking)
    } else if c == 's' {
        Some(LaneType::Sidewalk)
    } else if c == 'b' {
        Some(LaneType::Biking)
    } else if c == 'u' {
        Some(LaneType::Bus)
    } else {
        None
    }
}

/// The lanes of a road, as specifications see them: those of the forward
/// direction, then those of the backward direction, each from the centre
/// line outwards.
pub struct Lanes {
    pub fwd: Seq<LaneType>,
    pub back: Seq<LaneType>,
}

pub open spec fn letters(lanes: Seq<LaneType>) -> Seq<char> {
    lanes.map_values(|lt: LaneType| lane_letter(lt))
}

/// The lanes that a run of letters stands for, if each of them is a lane's
/// letter.
pub open spec fn lanes_of(s: Seq<char>) -> Option<Seq<LaneType>> {
    if forall|i: int| 0 <= i < s.len() ==> letter_lane(#[trigger] s[i]) is Some {
        Some(s.map_values(|c: char| letter_lane(c)->0))
    } else {
        None
    }
}

pub open spec fn encode(l: Lanes) -> Seq<char> {
    letters(l.fwd) + seq!['/'] + letters(l.back)
}

pub open spec fn is_first_slash(s: Seq<char>, k: int) -> bool {
    &&& 0 <= k < s.len()
    &&& s[k] == '/'
    &&& forall|j: int| 0 <= j < k ==> s[j] != '/'
}

/// What a text stands for. The first slash parts the forward lanes from the
/// backward ones; a text without a slash has forward lanes only.
pub open spec fn decode(s: Seq<char>) -> Option<Lanes> {
    if exists|k: int| is_first_slash(s, k) {
        let k = choose|k: int| is_first_slash(s, k);
        match (lanes_of(s.subrange(0, k)), lanes_of(s.subrange(k + 1, s.len() as int))) {
            (Some(fwd), Some(back)) => Some(Lanes { fwd, back }),
            _ => None,
        }
    } else {
        match lanes_of(s) {
            Some(fwd) => Some(Lanes { fwd, back: Seq::empty() }),
            None => None,
        }
    }
}

/// Decoding what was encoded gives the lanes back.
pub proof fn lemma_decode_encode(l: Lanes)
    ensures
        decode(encode(l)) == Some(l),
{
    let s = encode(l);
    let k = l.fwd.len() as int;
    assert(s[k] == '/');
    assert forall|j: int| 0 <= j < k implies s[j] != '/' by {
        assert(s[j] == lane_letter(l.fwd[j]));
    }
    assert(is_first_slash(s, k));
    let k2 = choose|k2: int| is_first_slash(s, k2);
    assert(k2 == k) by {
        if k2 < k {
            assert(s[k2] == lane_letter(l.fwd[k2]));
        }
    }
    assert(s.subrange(0, k) =~= letters(l.fwd));
    assert(s.subrange(k + 1, s.len() as int) =~= letters(l.back));
    lemma_lanes_of_letters(l.fwd);
    lemma_lanes_of_letters(l.back);
}

/// A run of lane letters stands for the lanes it was written from.
pub proof fn lemma_lanes_of_letters(lanes: Seq<LaneType>)
    ensures
        lanes_of(letters(lanes)) == Some(lanes),
{
    let s = letters(lanes);
    assert forall|i: int| 0 <= i < s.len() implies letter_lane(#[trigger] s[i]) == Some(
        lanes[i],
    ) by {
        assert(s[i] == lane_letter(lanes[i]));
    }
    assert(s.map_values(|c: char| letter_lane(c)->0) =~= lanes);
}

impl LaneType {
    pub fn to_char(self) -> (c: char)
        ensures
            c == lane_letter(self),
    {
        match self {
            LaneType::Driving => 'd',
            LaneType::Parking => 'p',
            LaneType::Sidewalk => 's',
            LaneType::Biking => 'b',
            LaneType::Bus => 'u',
        }
    }

    pub fn from_char(c: char) -> (r: Option<LaneType>)
        ensures
            r == letter_lane(c),
    {
        if c == 'd' {
            Some(LaneType::Driving)
        } else if c == 'p' {
            Some(LaneType::Parking)
        } else if c == 's' {
            Some(LaneType::Sidewalk)
        } else if c == 'b' {
            Some(LaneType::Biking)
        } else if c == 'u' {
            Some(LaneType::Bus)
        } else {
            None
        }
    }

    /// The lane's letter as a text of its own.
    fn letter_str(self) -> (s: &'static str)
        ensures
            s@ == seq![lane_letter(self)],
    {
        proof {
            reveal_strlit("d");
            reveal_strlit("p");
            reveal_strlit("s");
            reveal_strlit("b");
            reveal_strlit("u");
        }
        let s = match self {
            LaneType::Driving => "d",
            LaneType::Parking => "p",
            LaneType::Sidewalk => "s",
            LaneType::Biking => "b",
            LaneType::Bus => "u",
        };
        assert(s@ =~= seq![lane_letter(self)]);
        s
    }
}

/// The lanes of a road.
#[derive(Debug)]
pub struct RoadSpec {
    pub fwd: Vec<LaneType>,
    pub back: Vec<LaneType>,
}

impl View for RoadSpec {
    type V = Lanes;

    open spec fn view(&self) -> Lanes {
        Lanes { fwd: self.fwd@, back: self.back@ }
    }
}

/// Appends the letters of `lanes` to `out`.
fn push_letters(out: &mut String, lanes: &Vec<LaneType>)
    ensures
        final(out)@ == old(out)@ + letters(lanes@),
{
    let n = lanes.len();
    let mut i: usize = 0;
    while i < n
        invariant
            n == lanes.len(),
            i <= n,
            out@ == old(out)@ + letters(lanes@).take(i as int),
        decreases n - i,
    {
        out.append(lanes[i].letter_str());
        assert(letters(lanes@).take(i + 1) =~= letters(lanes@).take(i as int) + seq![
            lane_letter(lanes@[i as int]),
        ]);
        i = i + 1;
    }
    assert(letters(lanes@).take(n as int) =~= letters(lanes@));
}

impl RoadSpec {
    /// A driving lane, a parking lane and a sidewalk in both directions.
    pub fn default_lanes() -> (r: RoadSpec)
        ensures
            r@ == default_lanes(),
    {
        let mut fwd: Vec<LaneType> = Vec::new();
        fwd.push(LaneType::Driving);
        fwd.push(LaneType::Parking);
        fwd.push(LaneType::Sidewalk);
        let mut back: Vec<LaneType> = Vec::new();
        back.push(LaneType::Driving);
        back.push(LaneType::Parking);
        back.push(LaneType::Sidewalk);
        let r = RoadSpec { fwd, back };
        assert(r@.fwd =~= default_lanes().fwd);
        assert(r@.back =~= default_lanes().back);
        r
    }

    /// The lanes in their one-line notation.
    pub fn to_string(&self) -> (s: String)
        ensures
            s@ == encode(self@),
    {
        proof {
            reveal_strlit("/");
        }
        let mut s = String::new();
        push_letters(&mut s, &self.fwd);
        s.append("/");
        assert("/"@ =~= seq!['/']);
        push_letters(&mut s, &self.back);
        assert(s@ =~= encode(self@));
        s
    }

    /// The lanes that `s` describes, if it describes any.
    pub fn parse(s: &str) -> (r: Option<RoadSpec>)
        ensures
            match r {
                Some(spec) => decode(s@) == Some(spec@),
                None => decode(s@) is None,
            },
    {
        let mut fwd: Vec<LaneType> = Vec::new();
        let mut back: Vec<LaneType> = Vec::new();
        let mut seen_slash = false;
        let ghost mut slash_at: int = 0;
        let ghost text = s@;
        for c in it: s.chars()
            invariant
                text == s@,
                it.seq() == text,
                !seen_slash ==> {
                    &&& forall|j: int| 0 <= j < it.index() ==> text[j] != '/'
                    &&& lanes_of(text.subrange(0, it.index())) == Some(fwd@)
                    &&& back@.len() == 0
                },
                seen_slash ==> {
                    &&& is_first_slash(text, slash_at)
                    &&& slash_at < it.index()
                    &&& lanes_of(text.subrange(0, slash_at)) == Some(fwd@)
                    &&& lanes_of(text.subrange(slash_at + 1, it.index())) == Some(back@)
                },
        {
            let ghost i = it.index();
            assert(c == text[i]);
            if !seen_slash && c == '/' {
                seen_slash = true;
                proof {
                    slash_at = i;
                    assert(text.subrange(slash_at + 1, i + 1) =~= Seq::<char>::empty());
                    assert(lanes_of(Seq::<char>::empty()) == Some(Seq::<LaneType>::empty())) by {
                        assert(Seq::<char>::empty().map_values(|c: char| letter_lane(c)->0)
                            =~= Seq::<LaneType>::empty());
                    }
                    assert(back@ =~= Seq::<LaneType>::empty());
                }
            } else {
                match LaneType::from_char(c) {
                    Some(lt) => {
                        if seen_slash {
                            proof {
                                lemma_lanes_of_push(text.subrange(slash_at + 1, i), c);
                                assert(text.subrange(slash_at + 1, i + 1) =~= text.subrange(
                                    slash_at + 1,
                                    i,
                                ).push(c));
                            }
                            back.push(lt);
                        } else {
                            proof {
                                lemma_lanes_of_push(text.subrange(0, i), c);
                                assert(text.subrange(0, i + 1) =~= text.subrange(0, i).push(c));
                            }
                            fwd.push(lt);
                        }
                    },
                    None => {
                        proof {
                            lemma_bad_letter(text, i, seen_slash, slash_at);
                        }
                        return None;
                    },
                }
            }
        }
        proof {
            if seen_slash {
                let k = choose|k: int| is_first_slash(text, k);
                assert(k == slash_at) by {
                    if k < slash_at {
                    } else if slash_at < k {
                    }
                }
            } else {
                assert(text.subrange(0, text.len() as int) =~= text);
                assert(back@ =~= Seq::<LaneType>::empty());
            }
        }
        Some(RoadSpec { fwd, back })
    }
}

pub open spec fn default_lanes() -> Lanes {
    Lanes {
        fwd: seq![LaneType::Driving, LaneType::Parking, LaneType::Sidewalk],
        back: seq![LaneType::Driving, LaneType::Parking, LaneType::Sidewalk],
    }
}

proof fn lemma_lanes_of_push(s: Seq<char>, c: char)
    requires
        lanes_of(s) is Some,
        letter_lane(c) is Some,
    ensures
        lanes_of(s.push(c)) == Some(lanes_of(s)->0.push(letter_lane(c)->0)),
{
    let t = s.push(c);
    assert forall|i: int| 0 <= i < t.len() implies letter_lane(#[trigger] t[i]) is Some by {
        if i < s.len() {
            assert(t[i] == s[i]);
        }
    }
    assert(t.map_values(|c: char| letter_lane(c)->0) =~= s.map_values(
        |c: char| letter_lane(c)->0,
    ).push(letter_lane(c)->0));
}

/// A text with a character that is neither a lane's letter nor the first
/// slash stands for nothing.
proof fn lemma_bad_letter(s: Seq<char>, i: int, seen_slash: bool, slash_at: int)
    requires
        0 <= i < s.len(),
        letter_lane(s[i]) is None,
        seen_slash ==> is_first_slash(s, slash_at) && slash_at < i,
        !seen_slash ==> s[i] != '/' && forall|j: int| 0 <= j < i ==> s[j] != '/',
    ensures
        decode(s) is None,
{
    if exists|k: int| is_first_slash(s, k) {
        let k = choose|k: int| is_first_slash(s, k);
        if seen_slash {
            assert(k == slash_at) by {
                if k < slash_at {
                } else if slash_at < k {
                }
            }
            let tail = s.subrange(k + 1, s.len() as int);
            assert(tail[i - k - 1] == s[i]);
        } else {
            assert(k > i) by {
                if k < i {
                }
            }
            let head = s.subrange(0, k);
            assert(head[i] == s[i]);
        }
    } else {
        assert(letter_lane(s[i]) is None);
    }
}

} // verus!
