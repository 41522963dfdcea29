use crate::command::{command_of, parse_command, Command};
use crate::engine::{compute, layout_name_of, layout_rects, GeneratedLayout, LayoutConfig};
use vstd::prelude::*;

verus! {

/// The two layouts of a context; `active` is the one used for rendering.
#[derive(Clone, Copy, Debug, PartialEq, Eq, Structural)]
pub struct LayoutRotation {
    pub active: LayoutConfig,
    pub inactive: LayoutConfig,
}

/// Why a command could not be applied at all.
#[derive(Clone, Copy, Debug, PartialEq, Eq, Structural)]
pub enum CommandError {
    /// The command came without a tag mask.
    MissingTagMask,
    /// The tag mask has no bit set, so it names no tag.
    EmptyTagMask,
}

/// What an accepted command did.
#[derive(Clone, Copy, Debug, PartialEq, Eq, Structural)]
pub enum CommandOutcome {
    /// The rotation was rotated or its tile ratio changed.
    Applied,
    /// The command had no effect on the rotation.
    Ignored,
}

/// The key of a context: an output's name and a tag index.
pub type ContextKey = (Seq<char>, u32);

/// Tile with a gap of 6 pixels and a main ratio of 0.60, then Stack.
pub open spec fn default_rotation() -> LayoutRotation {
    LayoutRotation {
        active: LayoutConfig::Tile { gap: 6, main_ratio: 600_000 },
        inactive: LayoutConfig::Stack,
    }
}

/// The tag index of a mask: the position of its lowest set bit (32 for an empty mask).
pub open spec fn tag_index(tags: u32) -> u32 {
    tags.trailing_zeros()
}

pub open spec fn context_of(output: Seq<char>, tags: u32) -> ContextKey {
    (output, tag_index(tags))
}

/// The rotation of a context, or the default one where it has none yet.
pub open spec fn rotation_or_default(
    contexts: Map<ContextKey, LayoutRotation>,
    key: ContextKey,
) -> LayoutRotation {
    if contexts.contains_key(key) {
        contexts[key]
    } else {
        default_rotation()
    }
}

/// `main_ratio + delta`, where the active layout is a tile and the sum fits.
pub open spec fn raised_ratio(r: LayoutRotation, delta: i64) -> Option<LayoutConfig> {
    match r.active {
        LayoutConfig::Tile { gap, main_ratio } => if i64::MIN <= main_ratio + delta <= i64::MAX {
            Some(LayoutConfig::Tile { gap, main_ratio: (main_ratio + delta) as i64 })
        } else {
            None
        },
        LayoutConfig::Stack => None,
    }
}

/// Whether a command changes a rotation.
pub open spec fn takes_effect(r: LayoutRotation, c: Command) -> bool {
    match c {
        Command::ToggleLayout => true,
        Command::IncMainRatio(delta) => raised_ratio(r, delta) is Some,
        Command::Unrecognized => false,
    }
}

/// A rotation after a command.
pub open spec fn rotation_after(r: LayoutRotation, c: Command) -> LayoutRotation {
    match c {
        Command::ToggleLayout => LayoutRotation { active: r.inactive, inactive: r.active },
        Command::IncMainRatio(delta) => match raised_ratio(r, delta) {
            Some(active) => LayoutRotation { active, inactive: r.inactive },
            None => r,
        },
        Command::Unrecognized => r,
    }
}

/// The contexts after a command on `key`: the context is created with the
/// default rotation where it was missing, then changed by the command.
pub open spec fn contexts_after(
    contexts: Map<ContextKey, LayoutRotation>,
    key: ContextKey,
    c: Command,
) -> Map<ContextKey, LayoutRotation> {
    contexts.insert(key, rotation_after(rotation_or_default(contexts, key), c))
}

impl LayoutRotation {
    /// The rotation that a context starts with.
    pub fn initial() -> (r: LayoutRotation)
        ensures
            r == default_rotation(),
    {
        LayoutRotation {
            active: LayoutConfig::Tile { gap: 6, main_ratio: 600_000 },
            inactive: LayoutConfig::Stack,
        }
    }

    /// Applies a command; returns whether it changed the rotation.
    pub fn apply(&mut self, c: Command) -> (changed: bool)
        ensures
            *final(self) == rotation_after(*old(self), c),
            changed == takes_effect(*old(self), c),
    {
        match c {
            Command::ToggleLayout => {
                let previous = self.active;
                self.active = self.inactive;
                self.inactive = previous;
                true
            },
            Command::IncMainRatio(delta) => match self.active {
                LayoutConfig::Tile { gap, main_ratio } => match main_ratio.checked_add(delta) {
                    Some(sum) => {
                        self.active = LayoutConfig::Tile { gap, main_ratio: sum };
                        true
                    },
                    None => false,
                },
                LayoutConfig::Stack => false,
            },
            Command::Unrecognized => false,
        }
    }
}

struct ContextEntry {
    output: String,
    tag: u32,
    rotation: LayoutRotation,
}

spec fn entry_key(e: ContextEntry) -> ContextKey {
    (e.output@, e.tag)
}

/// The layout rotations of all contexts that a command has addressed.
pub struct LayoutStore {
    entries: Vec<ContextEntry>,
    contexts: Ghost<Map<ContextKey, LayoutRotation>>,
}

impl View for LayoutStore {
    type V = Map<ContextKey, LayoutRotation>;

    closed spec fn view(&self) -> Map<ContextKey, LayoutRotation> {
        self.contexts@
    }
}

impl LayoutStore {
    /// Each context is held once, and the entries hold exactly the contexts of the view.
    pub closed spec fn wf(&self) -> bool {
        &&& forall|i: int, j: int|
            0 <= i < j < self.entries@.len() ==> entry_key(self.entries@[i]) != entry_key(
                self.entries@[j],
            )
        &&& forall|i: int|
            0 <= i < self.entries@.len() ==> {
                &&& self.contexts@.contains_key(#[trigger] entry_key(self.entries@[i]))
                &&& self.contexts@[entry_key(self.entries@[i])] == self.entries@[i].rotation
            }
        &&& forall|k: ContextKey| #[trigger]
            self.contexts@.contains_key(k) ==> exists|i: int|
                0 <= i < self.entries@.len() && entry_key(self.entries@[i]) == k
    }

    /// A store with no context.
    pub fn new() -> (r: LayoutStore)
        ensures
            r.wf(),
            r@ == Map::<ContextKey, LayoutRotation>::empty(),
    {
        LayoutStore { entries: Vec::new(), contexts: Ghost(Map::empty()) }
    }

    fn find(&self, output: &String, tag: u32) -> (r: Option<usize>)
        requires
            self.wf(),
        ensures
            match r {
                Some(i) => i < self.entries@.len() && entry_key(self.entries@[i as int]) == (
                output@,
                tag,
                ),
                None => !self@.contains_key((output@, tag)),
            },
    {
        let mut i: usize = 0;
        while i < self.entries.len()
            invariant
                self.wf(),
                i <= self.entries@.len(),
                forall|j: int| 0 <= j < i ==> entry_key(self.entries@[j]) != (output@, tag),
            decreases self.entries@.len() - i,
        {
            let e = &self.entries[i];
            if e.tag == tag && e.output == *output {
                return Some(i);
            }
            i = i + 1;
        }
        None
    }

    /// The rotation held for the context of `output` and the mask `tags`, if a
    /// command has addressed it.
    pub fn rotation(&self, output: &str, tags: u32) -> (r: Option<LayoutRotation>)
        requires
            self.wf(),
        ensures
            r == (if self@.contains_key(context_of(output@, tags)) {
                Some(self@[context_of(output@, tags)])
            } else {
                None
            }),
    {
        let name = output.to_owned();
        match self.find(&name, tags.trailing_zeros()) {
            Some(i) => Some(self.entries[i].rotation),
            None => None,
        }
    }

    /// The layout in use for the context of `output` and the mask `tags`: the
    /// active one of its rotation, or of the default rotation.
    pub fn active_layout(&self, output: &str, tags: u32) -> (r: LayoutConfig)
        requires
            self.wf(),
        ensures
            r == rotation_or_default(self@, context_of(output@, tags)).active,
    {
        match self.rotation(output, tags) {
            Some(rotation) => rotation.active,
            None => LayoutRotation::initial().active,
        }
    }

    /// Applies `cmd` to the context of `output` and the mask `tags`, creating
    /// that context with the default rotation first where it is missing.
    /// An empty mask is refused and changes nothing.
    pub fn apply_command(&mut self, output: &str, tags: u32, cmd: &str) -> (r: Result<
        CommandOutcome,
        CommandError,
    >)
        requires
            old(self).wf(),
        ensures
            final(self).wf(),
            tags == 0 ==> r == Err::<CommandOutcome, CommandError>(CommandError::EmptyTagMask)
                && final(self)@ == old(self)@,
            tags != 0 ==> {
                let key = context_of(output@, tags);
                let before = rotation_or_default(old(self)@, key);
                &&& final(self)@ == contexts_after(old(self)@, key, command_of(cmd@))
                &&& r == Ok::<CommandOutcome, CommandError>(
                    if takes_effect(before, command_of(cmd@)) {
                        CommandOutcome::Applied
                    } else {
                        CommandOutcome::Ignored
                    },
                )
            },
    {
        if tags == 0 {
            return Err(CommandError::EmptyTagMask);
        }
        let tag = tags.trailing_zeros();
        let name = output.to_owned();
        let command = parse_command(cmd);
        let ghost key = context_of(output@, tags);
        let ghost before = rotation_or_default(self@, key);
        let changed = match self.find(&name, tag) {
            Some(i) => {
                let mut rotation = self.entries[i].rotation;
                let changed = rotation.apply(command);
                let entry = ContextEntry { output: self.entries[i].output.clone(), tag, rotation };
                self.entries.set(i, entry);
                self.contexts = Ghost(self.contexts@.insert(key, rotation));
                proof {
                    assert(self.entries@[i as int].rotation == rotation);
                    assert forall|k: ContextKey| #[trigger]
                        self.contexts@.contains_key(k) implies exists|j: int|
                        0 <= j < self.entries@.len() && entry_key(self.entries@[j]) == k by {
                        if k != key {
                            let j = choose|j: int|
                                0 <= j < old(self).entries@.len() && entry_key(
                                    old(self).entries@[j],
                                ) == k;
                            assert(entry_key(self.entries@[j]) == k);
                        } else {
                            assert(entry_key(self.entries@[i as int]) == k);
                        }
                    }
                }
                changed
            },
            None => {
                let mut rotation = LayoutRotation::initial();
                let changed = rotation.apply(command);
                self.entries.push(ContextEntry { output: name, tag, rotation });
                self.contexts = Ghost(self.contexts@.insert(key, rotation));
                proof {
                    let n = self.entries@.len() - 1;
                    assert(entry_key(self.entries@[n]) == key);
                    assert forall|k: ContextKey| #[trigger]
                        self.contexts@.contains_key(k) implies exists|j: int|
                        0 <= j < self.entries@.len() && entry_key(self.entries@[j]) == k by {
                        if k != key {
                            let j = choose|j: int|
                                0 <= j < old(self).entries@.len() && entry_key(
                                    old(self).entries@[j],
                                ) == k;
                            assert(entry_key(self.entries@[j]) == k);
                        } else {
                            assert(entry_key(self.entries@[n]) == k);
                        }
                    }
                }
                changed
            },
        };
        if changed {
            Ok(CommandOutcome::Applied)
        } else {
            Ok(CommandOutcome::Ignored)
        }
    }

    /// A command as the compositor delivers it: the tag mask may be absent,
    /// which is refused and changes nothing; otherwise as `apply_command`.
    pub fn on_command(&mut self, cmd: &str, tags: Option<u32>, output: &str) -> (r: Result<
        CommandOutcome,
        CommandError,
    >)
        requires
            old(self).wf(),
        ensures
            final(self).wf(),
            tags is None ==> r == Err::<CommandOutcome, CommandError>(
                CommandError::MissingTagMask,
            ) && final(self)@ == old(self)@,
            tags == Some(0u32) ==> r == Err::<CommandOutcome, CommandError>(
                CommandError::EmptyTagMask,
            ) && final(self)@ == old(self)@,
            tags is Some && tags.unwrap() != 0 ==> {
                let key = context_of(output@, tags.unwrap());
                let before = rotation_or_default(old(self)@, key);
                &&& final(self)@ == contexts_after(old(self)@, key, command_of(cmd@))
                &&& r == Ok::<CommandOutcome, CommandError>(
                    if takes_effect(before, command_of(cmd@)) {
                        CommandOutcome::Applied
                    } else {
                        CommandOutcome::Ignored
                    },
                )
            },
    {
        match tags {
            Some(t) => self.apply_command(output, t, cmd),
            None => Err(CommandError::MissingTagMask),
        }
    }

    /// A layout request: places `view_count` views with the layout in use for
    /// the context of `output` and `tags`. Reads the store and never changes it.
    pub fn on_layout_request(
        &self,
        view_count: u32,
        usable_width: u32,
        usable_height: u32,
        tags: u32,
        output: &str,
    ) -> (r: GeneratedLayout)
        requires
            self.wf(),
        ensures
            ({
                let layout = rotation_or_default(self@, context_of(output@, tags)).active;
                &&& r.layout_name@ == layout_name_of(layout)
                &&& r.views@ == layout_rects(layout, view_count, usable_width, usable_height)
            }),
    {
        let layout = self.active_layout(output, tags);
        compute(&layout, view_count, usable_width, usable_height)
    }
}

/// Bit `bit` is the lowest bit set in `mask`.
pub open spec fn lowest_set_bit_is(mask: u32, bit: u32) -> bool {
    &&& (mask >> bit) & 1u32 == 1u32
    &&& forall|j: u32| j < bit ==> #[trigger] ((mask >> j) & 1u32) == 0u32
}

/// Masks that share their lowest set bit address the same context: a command
/// sent with one of them changes the rotation that a request with the other reads.
pub proof fn lemma_same_lowest_bit_same_context(
    contexts: Map<ContextKey, LayoutRotation>,
    output: Seq<char>,
    a: u32,
    b: u32,
    bit: u32,
    c: Command,
)
    requires
        bit < 32,
        lowest_set_bit_is(a, bit),
        lowest_set_bit_is(b, bit),
    ensures
        context_of(output, a) == context_of(output, b),
        rotation_or_default(contexts_after(contexts, context_of(output, a), c), context_of(output, b))
            == rotation_after(rotation_or_default(contexts, context_of(output, a)), c),
{
    lemma_tag_index_is_lowest_bit(a, bit);
    lemma_tag_index_is_lowest_bit(b, bit);
}

proof fn lemma_tag_index_is_lowest_bit(mask: u32, bit: u32)
    requires
        bit < 32,
        lowest_set_bit_is(mask, bit),
    ensures
        tag_index(mask) == bit,
{
    vstd::std_specs::bits::axiom_u32_trailing_zeros(mask);
    let t = mask.trailing_zeros();
    if t < bit {
        assert((mask >> t) & 1u32 == 0u32);
    } else if t > bit {
        assert((mask >> bit) & 1u32 == 0u32);
    }
}

/// Toggling a context twice gives it back the rotation it had (the default
/// one where it had none).
pub proof fn lemma_toggle_twice(contexts: Map<ContextKey, LayoutRotation>, key: ContextKey)
    ensures
        contexts_after(contexts_after(contexts, key, Command::ToggleLayout), key, Command::ToggleLayout)
            == contexts.insert(key, rotation_or_default(contexts, key)),
        contexts.contains_key(key) ==> contexts_after(
            contexts_after(contexts, key, Command::ToggleLayout),
            key,
            Command::ToggleLayout,
        ) == contexts,
{
    let once = contexts_after(contexts, key, Command::ToggleLayout);
    assert(contexts_after(once, key, Command::ToggleLayout) =~= contexts.insert(
        key,
        rotation_or_default(contexts, key),
    ));
    if contexts.contains_key(key) {
        assert(contexts.insert(key, contexts[key]) =~= contexts);
    }
}

/// Two ratio increments on a tile context add up: they have the effect of one
/// increment by their sum, as long as every ratio on the way fits.
pub proof fn lemma_ratio_increments_add_up(
    contexts: Map<ContextKey, LayoutRotation>,
    key: ContextKey,
    first: Seq<char>,
    second: Seq<char>,
    combined: Seq<char>,
    d1: i64,
    d2: i64,
)
    requires
        command_of(first) == Command::IncMainRatio(d1),
        command_of(second) == Command::IncMainRatio(d2),
        command_of(combined) == Command::IncMainRatio((d1 + d2) as i64),
        i64::MIN <= d1 + d2 <= i64::MAX,
        rotation_or_default(contexts, key).active matches LayoutConfig::Tile { main_ratio, .. } && {
            &&& i64::MIN <= main_ratio + d1 <= i64::MAX
            &&& i64::MIN <= main_ratio + d1 + d2 <= i64::MAX
        },
    ensures
        contexts_after(contexts_after(contexts, key, command_of(first)), key, command_of(second))
            == contexts_after(contexts, key, command_of(combined)),
{
    let once = contexts_after(contexts, key, command_of(first));
    assert(contexts_after(once, key, command_of(second)) =~= contexts_after(
        contexts,
        key,
        command_of(combined),
    ));
}

/// A ratio increment while the stack layout is active changes no rotation: the
/// tile layout keeps its ratio.
pub proof fn lemma_increment_under_stack_keeps_ratio(
    contexts: Map<ContextKey, LayoutRotation>,
    key: ContextKey,
    text: Seq<char>,
)
    requires
        command_of(text) is IncMainRatio,
        rotation_or_default(contexts, key).active == LayoutConfig::Stack,
    ensures
        !takes_effect(rotation_or_default(contexts, key), command_of(text)),
        contexts_after(contexts, key, command_of(text))[key] == rotation_or_default(contexts, key),
        contexts.contains_key(key) ==> contexts_after(contexts, key, command_of(text)) == contexts,
{
    if contexts.contains_key(key) {
        assert(contexts.insert(key, contexts[key]) =~= contexts);
    }
}

/// An `inc_main_ratio` whose delta does not parse is accepted and changes no
/// rotation: a context that exists stays as it is.
pub proof fn lemma_unparsable_delta_changes_nothing(
    contexts: Map<ContextKey, LayoutRotation>,
    key: ContextKey,
    text: Seq<char>,
)
    requires
        crate::command::inc_ratio_prefix().len() <= text.len(),
        text.subrange(0, crate::command::inc_ratio_prefix().len() as int)
            == crate::command::inc_ratio_prefix(),
        crate::command::ratio_of(
            text.subrange(crate::command::inc_ratio_prefix().len() as int, text.len() as int),
        ) is None,
    ensures
        command_of(text) == Command::Unrecognized,
        !takes_effect(rotation_or_default(contexts, key), command_of(text)),
        contexts_after(contexts, key, command_of(text)) == contexts.insert(
            key,
            rotation_or_default(contexts, key),
        ),
        contexts.contains_key(key) ==> contexts_after(contexts, key, command_of(text)) == contexts,
{
    assert(text != crate::command::toggle_text()) by {
        assert(text[0] == 'i');
    }
    if contexts.contains_key(key) {
        assert(contexts.insert(key, contexts[key]) =~= contexts);
    }
}

} // verus!
