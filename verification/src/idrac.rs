//! The raw IPMI commands that drive iDRAC's fans, and what the controller knows of
//! iDRAC's fan state.
//!
//! Running a command is the caller's business: the library says which commands to run,
//! in order, and learns from [`Idrac::command_succeeded`] which of them took effect.

use vstd::prelude::*;
use vstd::string::*;
use crate::curve::FanSpeed;
use crate::text::{decimal, hex_digit_char, push_decimal, push_hex_byte};

verus! {

/// A raw IPMI command for iDRAC's fans.
#[derive(Debug, Clone, Copy, PartialEq, Eq, Structural)]
pub enum IpmiCommand {
    /// Switch iDRAC's own fan controller off, so that fan speeds can be set by hand.
    EnableManualFanControl,
    /// Switch iDRAC's own fan controller back on.
    DisableManualFanControl,
    /// Set the fans to a speed; only available under manual fan control.
    SetManualFanSpeed(FanSpeed),
}

/// The notation `{:#04x}` gives a byte: `0x` and two lowercase hexadecimal digits.
pub open spec fn hex_byte_text(b: u8) -> Seq<char> {
    seq!['0', 'x', hex_digit_char((b / 16) as nat), hex_digit_char((b % 16) as nat)]
}

/// The arguments of `ipmitool` that send `command` to the local iDRAC.
pub open spec fn ipmitool_arguments(command: IpmiCommand) -> Seq<Seq<char>> {
    let raw = seq!["-I"@, "open"@, "raw"@, "0x30"@, "0x30"@];
    match command {
        IpmiCommand::EnableManualFanControl => raw + seq!["0x01"@, "0x00"@],
        IpmiCommand::DisableManualFanControl => raw + seq!["0x01"@, "0x01"@],
        IpmiCommand::SetManualFanSpeed(s) => raw + seq!["0x02"@, "0xff"@, hex_byte_text(s@)],
    }
}

/// What is printed before `command` is sent.
pub open spec fn announcement_text(command: IpmiCommand) -> Seq<char> {
    match command {
        IpmiCommand::EnableManualFanControl => "Enabling manual fan control"@,
        IpmiCommand::DisableManualFanControl => "Disabling manual fan control"@,
        IpmiCommand::SetManualFanSpeed(s) => "Setting manual fan speed to "@ + decimal(s@ as nat) + "%"@,
    }
}

/// What a failure of `command` is reported as, before the failure's own text.
pub open spec fn failure_context(command: IpmiCommand) -> Seq<char> {
    match command {
        IpmiCommand::EnableManualFanControl => "couldn't enable manual fan control"@,
        IpmiCommand::DisableManualFanControl => "couldn't disable manual fan control"@,
        IpmiCommand::SetManualFanSpeed(_) => "couldn't set manual fan speed"@,
    }
}

/// The views of `strings`.
pub open spec fn string_views(strings: Seq<String>) -> Seq<Seq<char>> {
    strings.map_values(|s: String| s@)
}

impl IpmiCommand {
    /// The arguments of `ipmitool` that send this command to the local iDRAC.
    pub fn arguments(&self) -> (args: Vec<String>)
        ensures
            string_views(args@) == ipmitool_arguments(*self),
    {
        let mut args: Vec<String> = Vec::new();
        args.push("-I".to_owned());
        args.push("open".to_owned());
        args.push("raw".to_owned());
        args.push("0x30".to_owned());
        args.push("0x30".to_owned());
        match *self {
            IpmiCommand::EnableManualFanControl => {
                args.push("0x01".to_owned());
                args.push("0x00".to_owned());
            },
            IpmiCommand::DisableManualFanControl => {
                args.push("0x01".to_owned());
                args.push("0x01".to_owned());
            },
            IpmiCommand::SetManualFanSpeed(s) => {
                args.push("0x02".to_owned());
                args.push("0xff".to_owned());
                let mut hex = String::new();
                push_hex_byte(&mut hex, s.percentage());
                args.push(hex);
            },
        }
        assert(string_views(args@) =~= ipmitool_arguments(*self));
        args
    }

    /// What is printed before this command is sent.
    pub fn announcement(&self) -> (text: String)
        ensures
            text@ == announcement_text(*self),
    {
        match *self {
            IpmiCommand::EnableManualFanControl => "Enabling manual fan control".to_owned(),
            IpmiCommand::DisableManualFanControl => "Disabling manual fan control".to_owned(),
            IpmiCommand::SetManualFanSpeed(s) => {
                let mut text = "Setting manual fan speed to ".to_owned();
                push_decimal(&mut text, s.percentage() as u64);
                text.append("%");
                text
            },
        }
    }

    /// The error reported when this command fails with `detail`.
    pub fn failure_message(&self, detail: &str) -> (message: String)
        ensures
            message@ == failure_context(*self) + ": "@ + detail@,
    {
        let mut message = match *self {
            IpmiCommand::EnableManualFanControl => "couldn't enable manual fan control".to_owned(),
            IpmiCommand::DisableManualFanControl => "couldn't disable manual fan control".to_owned(),
            IpmiCommand::SetManualFanSpeed(_) => "couldn't set manual fan speed".to_owned(),
        };
        message.append(": ");
        message.append(detail);
        message
    }
}

/// iDRAC's fan state after `command` took effect in `state` (`None`: iDRAC's own fan
/// controller is in charge; `Some(s)`: the fans run at `s` by hand).
pub open spec fn after_command(state: Option<FanSpeed>, command: IpmiCommand) -> Option<FanSpeed> {
    match command {
        IpmiCommand::EnableManualFanControl => state,
        IpmiCommand::DisableManualFanControl => None,
        IpmiCommand::SetManualFanSpeed(s) => Some(s),
    }
}

/// iDRAC's fan state after `commands` all took effect, in order.
pub open spec fn after_commands(state: Option<FanSpeed>, commands: Seq<IpmiCommand>) -> Option<FanSpeed>
    decreases commands.len(),
{
    if commands.len() == 0 {
        state
    } else {
        after_commands(after_command(state, commands[0]), commands.drop_first())
    }
}

/// The commands that set the fans to `speed` from `state`: none where they already run at
/// `speed`; else first enabling manual control where it is off, then setting the speed.
pub open spec fn set_speed_commands(state: Option<FanSpeed>, speed: FanSpeed) -> Seq<IpmiCommand> {
    if state == Some(speed) {
        seq![]
    } else if state is None {
        seq![IpmiCommand::EnableManualFanControl, IpmiCommand::SetManualFanSpeed(speed)]
    } else {
        seq![IpmiCommand::SetManualFanSpeed(speed)]
    }
}

/// What the controller knows of iDRAC's fans.
#[derive(Debug)]
pub struct Idrac {
    fan_speed: Option<FanSpeed>,
}

impl View for Idrac {
    type V = Option<FanSpeed>;

    closed spec fn view(&self) -> Option<FanSpeed> {
        self.fan_speed
    }
}

impl Idrac {
    /// No manual fan speed is known to be set.
    pub fn new() -> (idrac: Idrac)
        ensures
            idrac@ is None,
    {
        Idrac { fan_speed: None }
    }

    /// The current fan speed, if manual fan control is enabled; `None` where it is disabled.
    pub fn fan_speed(&self) -> (speed: Option<FanSpeed>)
        ensures
            speed == self@,
    {
        self.fan_speed
    }

    /// The commands that re-activate iDRAC's own fan controller.
    pub fn disable_manual_fan_control(&self) -> (commands: Vec<IpmiCommand>)
        ensures
            commands@ == seq![IpmiCommand::DisableManualFanControl],
    {
        let mut commands: Vec<IpmiCommand> = Vec::new();
        commands.push(IpmiCommand::DisableManualFanControl);
        commands
    }

    /// The commands that set the fans to `percentage`, in order.
    pub fn set_manual_fan_speed(&self, percentage: FanSpeed) -> (commands: Vec<IpmiCommand>)
        ensures
            commands@ == set_speed_commands(self@, percentage),
    {
        let mut commands: Vec<IpmiCommand> = Vec::new();
        match self.fan_speed {
            Some(current) => {
                if current.percentage() == percentage.percentage() {
                    proof {
                        crate::curve::lemma_fan_speed_of(percentage@);
                    }
                    assert(commands@ =~= set_speed_commands(self@, percentage));
                    return commands;
                }
            },
            None => commands.push(IpmiCommand::EnableManualFanControl),
        }
        commands.push(IpmiCommand::SetManualFanSpeed(percentage));
        assert(commands@ =~= set_speed_commands(self@, percentage));
        commands
    }

    /// Records that `command` was sent and succeeded.
    pub fn command_succeeded(&mut self, command: IpmiCommand)
        ensures
            final(self)@ == after_command(old(self)@, command),
    {
        match command {
            IpmiCommand::EnableManualFanControl => {},
            IpmiCommand::DisableManualFanControl => self.fan_speed = None,
            IpmiCommand::SetManualFanSpeed(s) => self.fan_speed = Some(s),
        }
    }
}

impl Idrac {
    /// Records the outcome of sending `command`: a success takes effect, a failure leaves
    /// the state as it was. Whether to go on with the commands that follow: only after a
    /// success.
    pub fn record_outcome(&mut self, command: IpmiCommand, succeeded: bool) -> (go_on: bool)
        ensures
            go_on == succeeded,
            final(self)@ == if succeeded {
                after_command(old(self)@, command)
            } else {
                old(self)@
            },
    {
        if succeeded {
            self.command_succeeded(command);
        }
        succeeded
    }
}

/// Once the commands for a speed have all succeeded, the fans are known to run at it.
pub proof fn lemma_set_speed_takes_effect(state: Option<FanSpeed>, speed: FanSpeed)
    ensures
        after_commands(state, set_speed_commands(state, speed)) == Some(speed),
{
    reveal_with_fuel(after_commands, 3);
    if state is None {
        assert(set_speed_commands(state, speed).drop_first() =~= seq![IpmiCommand::SetManualFanSpeed(speed)]);
        assert(seq![IpmiCommand::SetManualFanSpeed(speed)].drop_first() =~= Seq::<IpmiCommand>::empty());
    } else if state != Some(speed) {
        assert(set_speed_commands(state, speed).drop_first() =~= Seq::<IpmiCommand>::empty());
    }
}

/// Setting a speed that the fans already run at sends nothing; in particular, setting the
/// same speed twice sends commands only the first time.
pub proof fn lemma_same_speed_is_silent(state: Option<FanSpeed>, speed: FanSpeed)
    ensures
        set_speed_commands(Some(speed), speed).len() == 0,
        set_speed_commands(after_commands(state, set_speed_commands(state, speed)), speed).len() == 0,
{
    lemma_set_speed_takes_effect(state, speed);
}

/// Manual fan control is enabled exactly when it was off.
pub proof fn lemma_enable_only_when_off(state: Option<FanSpeed>, speed: FanSpeed)
    ensures
        set_speed_commands(state, speed).contains(IpmiCommand::EnableManualFanControl) <==> state is None,
{
    let cs = set_speed_commands(state, speed);
    if state is None {
        assert(cs[0] == IpmiCommand::EnableManualFanControl);
    }
}

/// Setting a speed never hands the fans back to iDRAC, and never sends a speed while
/// manual control is off: under manual control only the new speed is sent; without it,
/// manual control is enabled first and the speed sent last. No other speed is ever sent.
pub proof fn lemma_set_speed_command_shape(state: Option<FanSpeed>, speed: FanSpeed)
    ensures
        !set_speed_commands(state, speed).contains(IpmiCommand::DisableManualFanControl),
        forall|c: FanSpeed|
            state == Some(c) && c != speed ==> #[trigger] set_speed_commands(Some(c), speed)
                == seq![IpmiCommand::SetManualFanSpeed(speed)],
        state is None ==> set_speed_commands(state, speed).len() == 2 && set_speed_commands(
            state,
            speed,
        )[0] == IpmiCommand::EnableManualFanControl && set_speed_commands(state, speed)[1]
            == IpmiCommand::SetManualFanSpeed(speed),
        forall|other: FanSpeed|
            #[trigger] set_speed_commands(state, speed).contains(
                IpmiCommand::SetManualFanSpeed(other),
            ) ==> other == speed,
{
    let cs = set_speed_commands(state, speed);
    assert forall|other: FanSpeed|
        #[trigger] cs.contains(IpmiCommand::SetManualFanSpeed(other)) implies other == speed by {
        let i = choose|i: int| 0 <= i < cs.len() && cs[i] == IpmiCommand::SetManualFanSpeed(other);
    }
}

/// Once the command to disable manual control has succeeded, iDRAC's controller is in charge.
pub proof fn lemma_disable_takes_effect(state: Option<FanSpeed>)
    ensures
        after_commands(state, seq![IpmiCommand::DisableManualFanControl]) is None,
{
    reveal_with_fuel(after_commands, 2);
    assert(seq![IpmiCommand::DisableManualFanControl].drop_first() =~= Seq::<IpmiCommand>::empty());
}

} // verus!
