//! The description of a render job, and what is required of one.
//!
//! Money is an integer number of base units, carried as a decimal string, never a fraction.

use crate::fraction;
use crate::fraction::Fraction;
use crate::number;
use crate::proto;
use crate::proto::Kind;
use crate::shard;
use crate::shard::{FrameRange, RangeError, RangeFault};
use crate::text;
use vstd::prelude::*;
use vstd::string::*;

verus! {

broadcast use vstd::string::group_string_axioms;

/// A render job as it is configured.
#[derive(Debug, Clone, PartialEq, Eq)]
pub struct RenderConfig {
    pub kind: Kind,
    /// The container image; the kind's own where there is none.
    pub image: Option<String>,
    /// The input asset to stage into each cell; may be empty.
    pub input_cid: String,
    /// The frames, such as `1-500` or `42`.
    pub frames: String,
    /// Frames per shard.
    pub shard_size: u32,
    /// The most hosts to use.
    pub hosts: usize,
    /// The tag a host must have, if any.
    pub select: Option<String>,
    /// What is bid per frame, in base units.
    pub bid_per_frame: String,
    pub cpu_cores: u32,
    pub mem_mb: u64,
    /// How long a shard may run, in seconds.
    pub frame_secs: u64,
    /// The fraction of shards to render again and compare.
    pub verify: Fraction,
    /// Arguments appended to each shard's command.
    pub args: Vec<String>,
    /// The capability chain to present, if any.
    pub cap: Option<String>,
}

/// Frames per shard where none are configured.
pub fn default_shard_size() -> (res: u32)
    ensures
        res == 10,
{
    10
}

/// The most hosts where none are configured.
pub fn default_hosts() -> (res: usize)
    ensures
        res == 4,
{
    4
}

/// The bid per frame where none is configured: a hundredth of a credit.
pub fn default_bid() -> (res: String)
    ensures
        res@ == "10000000000000000"@,
{
    "10000000000000000".to_owned()
}

/// The processor cores where none are configured.
pub fn default_cpu() -> (res: u32)
    ensures
        res == 2,
{
    2
}

/// The memory where none is configured.
pub fn default_mem() -> (res: u64)
    ensures
        res == 4096,
{
    4096
}

/// How long a shard may run where nothing is configured.
pub fn default_frame_secs() -> (res: u64)
    ensures
        res == 600,
{
    600
}

/// The capability chain as it is taken from a job's description.
pub open spec fn cap_taken(cap: Option<Seq<char>>) -> Option<Seq<char>> {
    match cap {
        Some(c) => Some(text::trimmed(c)),
        None => None,
    }
}

/// The capability chain as it is taken from a job's description: trimmed, and none where none is given.
pub fn loaded_cap(cap: Option<&str>) -> (res: Option<String>)
    ensures
        text::opt_string_view(res) == cap_taken(text::opt_view(cap)),
{
    match cap {
        Some(c) => Some(text::trim(c).to_owned()),
        None => None,
    }
}

/// Why a configuration was refused.
#[derive(Debug, Clone, PartialEq, Eq)]
pub enum ConfigFault<S> {
    /// The frames are not a range.
    Frames { fault: RangeFault<S> },
    /// No host is allowed.
    NoHosts,
    /// The fraction to verify is not between zero and one.
    BadVerify { verify: Fraction },
    /// No processor core is asked for.
    NoCpu,
    /// No memory is asked for.
    NoMemory,
    /// The bid is written as a fraction.
    FractionalBid,
    /// The bid is not a whole number of base units.
    BadBid { bid: S },
    /// The bid is more than an amount can hold.
    BidOutOfRange,
}

/// Why a configuration was refused.
pub type ConfigError = ConfigFault<String>;

impl View for ConfigFault<String> {
    type V = ConfigFault<Seq<char>>;

    open spec fn view(&self) -> ConfigFault<Seq<char>> {
        match *self {
            ConfigFault::Frames { fault } => ConfigFault::Frames { fault: fault@ },
            ConfigFault::NoHosts => ConfigFault::NoHosts,
            ConfigFault::BadVerify { verify } => ConfigFault::BadVerify { verify },
            ConfigFault::NoCpu => ConfigFault::NoCpu,
            ConfigFault::NoMemory => ConfigFault::NoMemory,
            ConfigFault::FractionalBid => ConfigFault::FractionalBid,
            ConfigFault::BadBid { bid } => ConfigFault::BadBid { bid: bid@ },
            ConfigFault::BidOutOfRange => ConfigFault::BidOutOfRange,
        }
    }
}

/// What a refusal says. `shown` is how the fraction to verify prints.
pub open spec fn config_message(fault: ConfigFault<Seq<char>>, shown: Seq<char>) -> Seq<char> {
    match fault {
        ConfigFault::Frames { fault } => shard::range_message(fault),
        ConfigFault::NoHosts => "hosts must be >= 1"@,
        ConfigFault::BadVerify { verify } => "verify must be in [0.0, 1.0], got "@ + shown,
        ConfigFault::NoCpu => "cpu_cores must be >= 1"@,
        ConfigFault::NoMemory => "mem_mb must be >= 1"@,
        ConfigFault::FractionalBid =>
            "bid_per_frame must be integer base units (a decimal string), not a float"@,
        ConfigFault::BadBid { bid } => "bid_per_frame '"@ + bid + "' is not a base-unit integer"@,
        ConfigFault::BidOutOfRange => "bid_per_frame must be integer base units"@,
    }
}

impl ConfigFault<String> {
    /// What the refusal says. `shown` is how the fraction to verify prints.
    pub fn message(&self, shown: &str) -> (res: String)
        ensures
            res@ == config_message(self@, shown@),
    {
        match self {
            ConfigFault::Frames { fault } => fault.message(),
            ConfigFault::NoHosts => "hosts must be >= 1".to_owned(),
            ConfigFault::BadVerify { verify: _ } => {
                let mut out: String = "verify must be in [0.0, 1.0], got ".to_owned();
                out.append(shown);
                out
            },
            ConfigFault::NoCpu => "cpu_cores must be >= 1".to_owned(),
            ConfigFault::NoMemory => "mem_mb must be >= 1".to_owned(),
            ConfigFault::FractionalBid => {
                "bid_per_frame must be integer base units (a decimal string), not a float".to_owned()
            },
            ConfigFault::BadBid { bid } => {
                let mut out: String = "bid_per_frame '".to_owned();
                out.append(bid.as_str());
                out.append("' is not a base-unit integer");
                out
            },
            ConfigFault::BidOutOfRange => "bid_per_frame must be integer base units".to_owned(),
        }
    }
}

/// The outcome of a check, with texts taken as character sequences.
pub open spec fn check_outcome(r: Result<(), ConfigError>) -> Result<(), ConfigFault<Seq<char>>> {
    match r {
        Ok(_) => Ok(()),
        Err(e) => Err(e@),
    }
}

impl RenderConfig {
    /// The first thing that is wrong with the configuration, in the order of the fields checked.
    pub open spec fn checked(&self) -> Result<(), ConfigFault<Seq<char>>> {
        match shard::parsed_range(self.frames@) {
            Err(fault) => Err(ConfigFault::Frames { fault }),
            Ok(_) => if self.hosts == 0 {
                Err(ConfigFault::NoHosts)
            } else if !self.verify.within_unit() {
                Err(ConfigFault::BadVerify { verify: self.verify })
            } else if self.cpu_cores == 0 {
                Err(ConfigFault::NoCpu)
            } else if self.mem_mb == 0 {
                Err(ConfigFault::NoMemory)
            } else if self.bid_per_frame@.contains('.') {
                Err(ConfigFault::FractionalBid)
            } else if number::natural_up_to(self.bid_per_frame@, u128::MAX as nat) is None {
                Err(ConfigFault::BadBid { bid: self.bid_per_frame@ })
            } else {
                Ok(())
            },
        }
    }

    /// The image that is used.
    pub open spec fn image_used(&self) -> Seq<char> {
        match self.image {
            Some(image) => image@,
            None => proto::default_image_of(self.kind),
        }
    }

    /// The frames of the job.
    pub fn range(&self) -> (res: Result<FrameRange, RangeError>)
        ensures
            shard::range_outcome(res) == shard::parsed_range(self.frames@),
    {
        FrameRange::parse(self.frames.as_str())
    }

    /// The image to use: the configured one, else the kind's own.
    pub fn image(&self) -> (res: String)
        ensures
            res@ == self.image_used(),
    {
        match &self.image {
            Some(image) => image.clone(),
            None => self.kind.default_image().to_owned(),
        }
    }

    /// Checks what the fields' types cannot say.
    pub fn validate(&self) -> (res: Result<(), ConfigError>)
        ensures
            check_outcome(res) == self.checked(),
    {
        match self.range() {
            Err(fault) => {
                return Err(ConfigFault::Frames { fault });
            },
            Ok(_) => {},
        }
        if self.hosts == 0 {
            return Err(ConfigFault::NoHosts);
        }
        if !self.verify.is_within_unit() {
            return Err(ConfigFault::BadVerify { verify: self.verify });
        }
        if self.cpu_cores == 0 {
            return Err(ConfigFault::NoCpu);
        }
        if self.mem_mb == 0 {
            return Err(ConfigFault::NoMemory);
        }
        let bid: &str = self.bid_per_frame.as_str();
        if text::has_char(bid, '.') {
            return Err(ConfigFault::FractionalBid);
        }
        match number::read_natural(bid, u128::MAX) {
            Some(_) => Ok(()),
            None => Err(ConfigFault::BadBid { bid: self.bid_per_frame.clone() }),
        }
    }
}

/// A configuration is accepted exactly when its frames are a range that holds a frame, it allows a
/// host, its verify fraction is between zero and one, it asks for processor and memory, and its bid
/// is a whole number of base units.
pub proof fn accepted_config_is_sound(cfg: RenderConfig)
    ensures
        cfg.checked() is Ok <==> {
            &&& shard::parsed_range(cfg.frames@) is Ok
            &&& cfg.hosts >= 1
            &&& cfg.verify.within_unit()
            &&& cfg.cpu_cores >= 1
            &&& cfg.mem_mb >= 1
            &&& number::natural_up_to(cfg.bid_per_frame@, u128::MAX as nat) is Some
        },
        cfg.checked() is Ok ==> shard::parsed_range(cfg.frames@)->Ok_0.valid(),
{
    let bid = cfg.bid_per_frame@;
    if bid.contains('.') {
        let i = choose|i: int| 0 <= i < bid.len() && bid[i] == '.';
        let body = if bid.len() > 0 && bid[0] == '+' {
            bid.drop_first()
        } else {
            bid
        };
        if number::numeral(body) {
            if bid[0] == '+' {
                assert(number::is_digit(body[i - 1]));
            } else {
                assert(number::is_digit(body[i]));
            }
        }
    }
}

/// The image that is used is the one configured, and otherwise that of the kind.
pub proof fn image_is_the_configured_one(cfg: RenderConfig)
    ensures
        cfg.image is Some ==> cfg.image_used() == cfg.image->0@,
        cfg.image is None ==> cfg.image_used() == (match cfg.kind {
            Kind::Blender => "ce-net/blender:latest"@,
            Kind::Chrome => "ce-net/headless-chrome:latest"@,
            Kind::Custom => "alpine:latest"@,
        }),
{
}

/// A refusal names a fault that the configuration has, and the first of them in the order of frames,
/// hosts, fraction, processor, memory and bid.
pub proof fn refusal_names_the_first_fault(cfg: RenderConfig)
    ensures
        ({
            let frames_ok = shard::parsed_range(cfg.frames@) is Ok;
            let verify_ok = cfg.verify.bits <= 0x3f80_0000 || cfg.verify.bits == 0x8000_0000;
            let bid = number::natural(cfg.bid_per_frame@);
            match cfg.checked() {
                Ok(_) => {
                    &&& frames_ok && cfg.hosts >= 1 && verify_ok && cfg.cpu_cores >= 1
                        && cfg.mem_mb >= 1
                    &&& bid is Some && bid->0 <= 0xffff_ffff_ffff_ffff_ffff_ffff_ffff_ffff
                },
                Err(ConfigFault::Frames { fault }) => shard::parsed_range(cfg.frames@) == Err::<
                    FrameRange,
                    RangeFault<Seq<char>>,
                >(fault),
                Err(ConfigFault::NoHosts) => frames_ok && cfg.hosts == 0,
                Err(ConfigFault::BadVerify { verify }) => {
                    &&& frames_ok && cfg.hosts >= 1
                    &&& !verify_ok
                    &&& verify == cfg.verify
                },
                Err(ConfigFault::NoCpu) => {
                    &&& frames_ok && cfg.hosts >= 1 && verify_ok
                    &&& cfg.cpu_cores == 0
                },
                Err(ConfigFault::NoMemory) => {
                    &&& frames_ok && cfg.hosts >= 1 && verify_ok && cfg.cpu_cores >= 1
                    &&& cfg.mem_mb == 0
                },
                Err(ConfigFault::FractionalBid) => {
                    &&& frames_ok && cfg.hosts >= 1 && verify_ok && cfg.cpu_cores >= 1
                        && cfg.mem_mb >= 1
                    &&& exists|i: int|
                        0 <= i < cfg.bid_per_frame@.len() && #[trigger] cfg.bid_per_frame@[i] == '.'
                },
                Err(ConfigFault::BadBid { bid: told }) => {
                    &&& frames_ok && cfg.hosts >= 1 && verify_ok && cfg.cpu_cores >= 1
                        && cfg.mem_mb >= 1
                    &&& forall|i: int|
                        0 <= i < cfg.bid_per_frame@.len() ==> #[trigger] cfg.bid_per_frame@[i] != '.'
                    &&& bid is None || bid->0 > 0xffff_ffff_ffff_ffff_ffff_ffff_ffff_ffff
                    &&& told == cfg.bid_per_frame@
                },
                Err(ConfigFault::BidOutOfRange) => false,
            }
        }),
{
    fraction::bits_tell_where_a_fraction_stands(cfg.verify);
    let bid = cfg.bid_per_frame@;
    if bid.contains('.') {
        let i = choose|i: int| 0 <= i < bid.len() && bid[i] == '.';
        assert(bid[i] == '.');
    }
    assert forall|i: int| 0 <= i < bid.len() && !bid.contains('.') implies #[trigger] bid[i]
        != '.' by {
        assert(bid.contains(bid[i]));
    }
}

/// What a refusal says quotes the bid, or tells the fraction, that was read.
pub proof fn message_quotes_what_was_read(bid: Seq<char>, shown: Seq<char>, verify: Fraction)
    ensures
        config_message(ConfigFault::BadBid { bid }, shown) == "bid_per_frame '"@ + bid
            + "' is not a base-unit integer"@,
        config_message(ConfigFault::BadVerify { verify }, shown)
            == "verify must be in [0.0, 1.0], got "@ + shown,
{
}

/// A chain is taken from a job's description exactly where one is given, without the whitespace at its
/// ends and otherwise as it is.
pub proof fn cap_is_taken_trimmed(cap: Option<Seq<char>>) -> (ends: (int, int))
    ensures
        cap_taken(cap) is Some <==> cap is Some,
        cap matches Some(c) ==> {
            &&& 0 <= ends.0 <= ends.1 <= c.len()
            &&& cap_taken(cap)->0 == c.subrange(ends.0, ends.1)
            &&& forall|i: int| 0 <= i < ends.0 ==> text::is_space(#[trigger] c[i])
            &&& forall|i: int| ends.1 <= i < c.len() ==> text::is_space(#[trigger] c[i])
            &&& ends.0 < ends.1 ==> !text::is_space(c[ends.0]) && !text::is_space(c[ends.1 - 1])
        },
{
    match cap {
        Some(c) => text::trimming_takes_only_the_ends(c),
        None => (0, 0),
    }
}

} // verus!
