//! What can be wrong with a curve or with the points that store it.
use vstd::prelude::*;
use vstd::string::*;

verus! {

#[derive(Clone, Copy, Debug, PartialEq, Eq, Structural)]
pub enum CurveError {
    /// A regular curve has fewer than two points.
    RegularTooShort,
    /// An elastic segment oscillates too often.
    ElasticTooLong,
    /// A bounce segment bounces too often.
    BounceTooLong,
    /// A bounce segment has no bounce.
    BounceEmpty,
    /// A segment has fewer than two control points, or more than its header can count.
    PointCountOutOfRange,
    /// The curve to store has no segments.
    NothingToStore,
    /// The curve to store does not have one more point than segments.
    Inconsistent,
    /// The stored hash is not the hash of the stored points.
    HashMismatch { expected: u32, actual: u32 },
    /// The second point of a segment's header is missing.
    MissingFlags,
    /// The flags name no kind of segment.
    InvalidHandleType,
    MissingBezierStartHandleX,
    MissingBezierStartHandleY,
    MissingBezierEndHandleX,
    MissingBezierEndHandleY,
    MissingElasticAmplitude,
    MissingElasticFrequency,
    MissingElasticDecay,
    MissingBounceVertexX,
    MissingBounceVertexY,
    /// A segment declares fewer than two sampled points.
    TooFewSampledPoints,
    /// A segment declares more sampled points than can be counted to.
    PointCountOverflow,
    /// A segment declares more sampled points than there are.
    TruncatedSampledPoints,
    /// A segment does not begin where the one before it ends.
    Disconnected,
    /// No segment is stored.
    NoStoredSegments,
}

/// The hexadecimal digits.
pub open spec fn hex_alphabet() -> Seq<char> {
    "0123456789abcdef"@
}

/// The number in hexadecimal, without leading zeros.
pub open spec fn hex_digits(n: nat) -> Seq<char>
    decreases n,
{
    if n < 16 {
        seq![hex_alphabet()[n as int]]
    } else {
        hex_digits(n / 16).push(hex_alphabet()[(n % 16) as int])
    }
}

fn write_hex(n: u32) -> (r: String)
    ensures
        r@ == hex_digits(n as nat),
    decreases n,
{
    let alphabet = "0123456789abcdef";
    proof {
        reveal_strlit("0123456789abcdef");
    }
    let mut text = if n < 16 {
        String::new()
    } else {
        write_hex(n / 16)
    };
    let digit: usize = (n % 16) as usize;
    text.append(alphabet.substring_ascii(digit, digit + 1));
    proof {
        if n < 16 {
            assert(n % 16 == n);
        }
        assert(text@ == hex_digits(n as nat));
    }
    text
}

impl CurveError {
    /// What the error says to a reader.
    pub open spec fn text(self) -> Seq<char> {
        match self {
            CurveError::RegularTooShort => "A regular curve must contain at least two points"@,
            CurveError::ElasticTooLong => "Elastic frequency produces too many curve points"@,
            CurveError::BounceTooLong => "Bounce parameters produce too many curve points"@,
            CurveError::BounceEmpty => "Bounce curve did not produce any spans"@,
            CurveError::PointCountOutOfRange =>
                "Curve segment point count is outside the encodable range"@,
            CurveError::NothingToStore => "A customized curve must contain at least one segment"@,
            CurveError::Inconsistent => "Curve points and segments are inconsistent"@,
            CurveError::HashMismatch { expected, actual } => "Curve hash mismatch: expected 0x"@
                + hex_digits(expected as nat) + ", got 0x"@ + hex_digits(actual as nat),
            CurveError::MissingFlags => "Curve segment does not contain its flags"@,
            CurveError::InvalidHandleType => "Invalid handle type in curve data"@,
            CurveError::MissingBezierStartHandleX =>
                "Bezier segment does not contain its start handle X"@,
            CurveError::MissingBezierStartHandleY =>
                "Bezier segment does not contain its start handle Y"@,
            CurveError::MissingBezierEndHandleX =>
                "Bezier segment does not contain its end handle X"@,
            CurveError::MissingBezierEndHandleY =>
                "Bezier segment does not contain its end handle Y"@,
            CurveError::MissingElasticAmplitude => "Elastic segment does not contain amplitude"@,
            CurveError::MissingElasticFrequency => "Elastic segment does not contain frequency"@,
            CurveError::MissingElasticDecay => "Elastic segment does not contain decay"@,
            CurveError::MissingBounceVertexX => "Bounce segment does not contain its vertex X"@,
            CurveError::MissingBounceVertexY => "Bounce segment does not contain its vertex Y"@,
            CurveError::TooFewSampledPoints =>
                "A curve segment must contain at least two sampled points"@,
            CurveError::PointCountOverflow => "Curve point count overflowed"@,
            CurveError::TruncatedSampledPoints =>
                "Curve segment does not contain the declared number of sampled points"@,
            CurveError::Disconnected => "Adjacent curve segments do not share an endpoint"@,
            CurveError::NoStoredSegments => "Customized curve does not contain any segments"@,
        }
    }

    pub fn message(&self) -> (r: String)
        ensures
            r@ == self.text(),
    {
        let text = match self {
            CurveError::RegularTooShort => "A regular curve must contain at least two points",
            CurveError::ElasticTooLong => "Elastic frequency produces too many curve points",
            CurveError::BounceTooLong => "Bounce parameters produce too many curve points",
            CurveError::BounceEmpty => "Bounce curve did not produce any spans",
            CurveError::PointCountOutOfRange =>
                "Curve segment point count is outside the encodable range",
            CurveError::NothingToStore => "A customized curve must contain at least one segment",
            CurveError::Inconsistent => "Curve points and segments are inconsistent",
            CurveError::HashMismatch { expected, actual } => {
                return "Curve hash mismatch: expected 0x".to_owned().concat(
                    write_hex(*expected).as_str(),
                ).concat(", got 0x").concat(write_hex(*actual).as_str());
            },
            CurveError::MissingFlags => "Curve segment does not contain its flags",
            CurveError::InvalidHandleType => "Invalid handle type in curve data",
            CurveError::MissingBezierStartHandleX =>
                "Bezier segment does not contain its start handle X",
            CurveError::MissingBezierStartHandleY =>
                "Bezier segment does not contain its start handle Y",
            CurveError::MissingBezierEndHandleX =>
                "Bezier segment does not contain its end handle X",
            CurveError::MissingBezierEndHandleY =>
                "Bezier segment does not contain its end handle Y",
            CurveError::MissingElasticAmplitude => "Elastic segment does not contain amplitude",
            CurveError::MissingElasticFrequency => "Elastic segment does not contain frequency",
            CurveError::MissingElasticDecay => "Elastic segment does not contain decay",
            CurveError::MissingBounceVertexX => "Bounce segment does not contain its vertex X",
            CurveError::MissingBounceVertexY => "Bounce segment does not contain its vertex Y",
            CurveError::TooFewSampledPoints =>
                "A curve segment must contain at least two sampled points",
            CurveError::PointCountOverflow => "Curve point count overflowed",
            CurveError::TruncatedSampledPoints =>
                "Curve segment does not contain the declared number of sampled points",
            CurveError::Disconnected => "Adjacent curve segments do not share an endpoint",
            CurveError::NoStoredSegments => "Customized curve does not contain any segments",
        };
        text.to_owned()
    }
}

} // verus!
