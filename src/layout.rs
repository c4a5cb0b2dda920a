use vstd::prelude::*;
use crate::error::VorbisError;

verus! {

/// A loudspeaker position in the channel order of a Vorbis stream.
#[derive(Clone, Copy, Debug, PartialEq, Eq, Structural)]
pub enum ChannelPosition {
    FrontLeft,
    FrontRight,
    FrontCentre,
    RearLeft,
    RearRight,
    RearCentre,
    SideLeft,
    SideRight,
    Lfe1,
}

/// The standard layout for `n` channels, for one to eight channels.
pub open spec fn layout_of(n: u8) -> Seq<ChannelPosition> {
    if n == 1 {
        seq![ChannelPosition::FrontLeft]
    } else if n == 2 {
        seq![ChannelPosition::FrontLeft, ChannelPosition::FrontRight]
    } else if n == 3 {
        seq![ChannelPosition::FrontLeft, ChannelPosition::FrontCentre, ChannelPosition::FrontRight]
    } else if n == 4 {
        seq![ChannelPosition::FrontLeft, ChannelPosition::FrontRight, ChannelPosition::RearLeft, ChannelPosition::RearRight]
    } else if n == 5 {
        seq![
            ChannelPosition::FrontLeft,
            ChannelPosition::FrontCentre,
            ChannelPosition::FrontRight,
            ChannelPosition::RearLeft,
            ChannelPosition::RearRight,
        ]
    } else if n == 6 {
        seq![
            ChannelPosition::FrontLeft,
            ChannelPosition::FrontCentre,
            ChannelPosition::FrontRight,
            ChannelPosition::RearLeft,
            ChannelPosition::RearRight,
            ChannelPosition::Lfe1,
        ]
    } else if n == 7 {
        seq![
            ChannelPosition::FrontLeft,
            ChannelPosition::FrontCentre,
            ChannelPosition::FrontRight,
            ChannelPosition::SideLeft,
            ChannelPosition::SideRight,
            ChannelPosition::RearCentre,
            ChannelPosition::Lfe1,
        ]
    } else {
        seq![
            ChannelPosition::FrontLeft,
            ChannelPosition::FrontCentre,
            ChannelPosition::FrontRight,
            ChannelPosition::SideLeft,
            ChannelPosition::SideRight,
            ChannelPosition::RearLeft,
            ChannelPosition::RearRight,
            ChannelPosition::Lfe1,
        ]
    }
}

/// The channel layout of a type 0 mapping with `num_channels` channels; no
/// layout is defined for zero or more than eight channels.
pub fn mapping0_channel_count_to_channels(num_channels: u8) -> (r: Result<Vec<ChannelPosition>, VorbisError>)
    ensures
        1 <= num_channels <= 8 ==> r is Ok && r->Ok_0@ == layout_of(num_channels),
        !(1 <= num_channels <= 8) ==> r == Err::<Vec<ChannelPosition>, VorbisError>(VorbisError::Unsupported),
{
    let r = match num_channels {
        1 => vec![ChannelPosition::FrontLeft],
        2 => vec![ChannelPosition::FrontLeft, ChannelPosition::FrontRight],
        3 => vec![ChannelPosition::FrontLeft, ChannelPosition::FrontCentre, ChannelPosition::FrontRight],
        4 => vec![
            ChannelPosition::FrontLeft,
            ChannelPosition::FrontRight,
            ChannelPosition::RearLeft,
            ChannelPosition::RearRight,
        ],
        5 => vec![
            ChannelPosition::FrontLeft,
            ChannelPosition::FrontCentre,
            ChannelPosition::FrontRight,
            ChannelPosition::RearLeft,
            ChannelPosition::RearRight,
        ],
        6 => vec![
            ChannelPosition::FrontLeft,
            ChannelPosition::FrontCentre,
            ChannelPosition::FrontRight,
            ChannelPosition::RearLeft,
            ChannelPosition::RearRight,
            ChannelPosition::Lfe1,
        ],
        7 => vec![
            ChannelPosition::FrontLeft,
            ChannelPosition::FrontCentre,
            ChannelPosition::FrontRight,
            ChannelPosition::SideLeft,
            ChannelPosition::SideRight,
            ChannelPosition::RearCentre,
            ChannelPosition::Lfe1,
        ],
        8 => vec![
            ChannelPosition::FrontLeft,
            ChannelPosition::FrontCentre,
            ChannelPosition::FrontRight,
            ChannelPosition::SideLeft,
            ChannelPosition::SideRight,
            ChannelPosition::RearLeft,
            ChannelPosition::RearRight,
            ChannelPosition::Lfe1,
        ],
        _ => return Err(VorbisError::Unsupported),
    };
    proof {
        assert(r@ =~= layout_of(num_channels));
    }
    Ok(r)
}

} // verus!
