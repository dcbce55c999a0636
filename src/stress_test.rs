use vstd::prelude::*;

verus! {

/// Load-test settings: how many random objects to keep alive and how fast to
/// add them.
#[derive(Clone, Copy, Debug, PartialEq, Eq, Structural)]
pub struct StressTestConfig {
    pub target_objects: usize,
    pub current_objects: usize,
    /// Objects added per frame at most.
    pub spawn_rate: usize,
    pub enabled: bool,
}

/// Load-test commands from the user.
#[derive(Clone, Copy, Debug, PartialEq, Eq, Structural)]
pub enum StressTestCommand {
    Toggle,
    Target500,
    Target1000,
    Target2000,
    Target5000,
}

impl Default for StressTestConfig {
    fn default() -> (r: StressTestConfig)
        ensures
            r == (StressTestConfig {
                target_objects: 1000,
                current_objects: 0,
                spawn_rate: 50,
                enabled: false,
            }),
    {
        StressTestConfig { target_objects: 1000, current_objects: 0, spawn_rate: 50, enabled: false }
    }
}

/// The settings after one command.
pub open spec fn after_command(c: StressTestConfig, cmd: StressTestCommand) -> StressTestConfig {
    match cmd {
        StressTestCommand::Toggle => StressTestConfig { enabled: !c.enabled, ..c },
        StressTestCommand::Target500 => StressTestConfig { target_objects: 500, ..c },
        StressTestCommand::Target1000 => StressTestConfig { target_objects: 1000, ..c },
        StressTestCommand::Target2000 => StressTestConfig { target_objects: 2000, ..c },
        StressTestCommand::Target5000 => StressTestConfig { target_objects: 5000, ..c },
    }
}

/// The settings after a sequence of commands, in order.
pub open spec fn after_commands(c: StressTestConfig, cmds: Seq<StressTestCommand>) -> StressTestConfig
    decreases cmds.len(),
{
    if cmds.len() == 0 {
        c
    } else {
        after_command(after_commands(c, cmds.drop_last()), cmds.last())
    }
}

/// How many objects to add this frame: none while disabled, else the
/// shortfall from the target, at most the spawn rate.
pub open spec fn spawn_count(c: StressTestConfig) -> usize {
    if !c.enabled || c.current_objects >= c.target_objects {
        0
    } else if c.target_objects - c.current_objects <= c.spawn_rate {
        (c.target_objects - c.current_objects) as usize
    } else {
        c.spawn_rate
    }
}

/// Applies this frame's commands, records how many load-test objects exist
/// and returns how many to add.
pub fn stress_test_spawn_system(
    config: &mut StressTestConfig,
    commands: &Vec<StressTestCommand>,
    existing_objects: usize,
) -> (to_spawn: usize)
    ensures
        ({
            let c = after_commands(*old(config), commands@);
            &&& *final(config) == if c.enabled {
                StressTestConfig { current_objects: existing_objects, ..c }
            } else {
                c
            }
            &&& to_spawn == spawn_count(*final(config))
        }),
{
    let mut i: usize = 0;
    while i < commands.len()
        invariant
            i <= commands@.len(),
            *config == after_commands(*old(config), commands@.subrange(0, i as int)),
        decreases commands@.len() - i,
    {
        let ghost prefix = commands@.subrange(0, i as int);
        match commands[i] {
            StressTestCommand::Toggle => config.enabled = !config.enabled,
            StressTestCommand::Target500 => config.target_objects = 500,
            StressTestCommand::Target1000 => config.target_objects = 1000,
            StressTestCommand::Target2000 => config.target_objects = 2000,
            StressTestCommand::Target5000 => config.target_objects = 5000,
        }
        proof {
            let next = commands@.subrange(0, i + 1);
            assert(next.drop_last() =~= prefix);
        }
        i += 1;
    }
    proof {
        assert(commands@.subrange(0, commands@.len() as int) =~= commands@);
    }
    if !config.enabled {
        return 0;
    }
    config.current_objects = existing_objects;
    if config.current_objects >= config.target_objects {
        0
    } else if config.target_objects - config.current_objects <= config.spawn_rate {
        config.target_objects - config.current_objects
    } else {
        config.spawn_rate
    }
}

/// On the clean-up command, forgets the load-test objects and disables the
/// test; returns whether they are to be removed.
pub fn stress_test_cleanup_system(config: &mut StressTestConfig, cleanup: bool) -> (remove_all: bool)
    ensures
        remove_all == cleanup,
        *final(config) == if cleanup {
            StressTestConfig { current_objects: 0, enabled: false, ..*old(config) }
        } else {
            *old(config)
        },
{
    if cleanup {
        config.current_objects = 0;
        config.enabled = false;
    }
    cleanup
}

} // verus!
