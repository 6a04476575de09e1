//! Hints on what a tool does, for deciding whether a call needs approval.
use vstd::prelude::*;

verus! {

/// The hints that a server gives. Each may be missing.
#[derive(Debug, Clone, Copy)]
pub struct RmcpToolAnnotations {
    pub read_only_hint: Option<bool>,
    pub destructive_hint: Option<bool>,
    pub idempotent_hint: Option<bool>,
    pub open_world_hint: Option<bool>,
}

/// What a tool does, as far as it matters for approval.
#[derive(Debug, Clone, Copy, PartialEq, Eq, Structural)]
pub struct ToolAnnotations {
    pub read_only: bool,
    pub destructive: bool,
    pub idempotent: bool,
    pub open_world: bool,
}

/// No annotation holds.
pub open spec fn plain_annotations() -> ToolAnnotations {
    ToolAnnotations { read_only: false, destructive: false, idempotent: false, open_world: false }
}

/// A hint, or what is assumed where it is missing.
pub open spec fn hint_or(hint: Option<bool>, assumed: bool) -> bool {
    match hint {
        Some(v) => v,
        None => assumed,
    }
}

/// The annotations that hints give. What is not said is assumed to be for the
/// worse: that the tool writes, destroys, cannot be tried again and reaches out.
pub open spec fn hinted(hints: RmcpToolAnnotations) -> ToolAnnotations {
    ToolAnnotations {
        read_only: hint_or(hints.read_only_hint, false),
        destructive: hint_or(hints.destructive_hint, true),
        idempotent: hint_or(hints.idempotent_hint, false),
        open_world: hint_or(hints.open_world_hint, true),
    }
}

/// Hints that say nothing.
pub open spec fn no_hints() -> RmcpToolAnnotations {
    RmcpToolAnnotations {
        read_only_hint: None,
        destructive_hint: None,
        idempotent_hint: None,
        open_world_hint: None,
    }
}

impl Default for ToolAnnotations {
    fn default() -> (r: Self)
        ensures
            r == plain_annotations(),
    {
        ToolAnnotations {
            read_only: false,
            destructive: false,
            idempotent: false,
            open_world: false,
        }
    }
}

fn hint_value(hint: Option<bool>, assumed: bool) -> (r: bool)
    ensures
        r == hint_or(hint, assumed),
{
    match hint {
        Some(v) => v,
        None => assumed,
    }
}

impl ToolAnnotations {
    /// No annotation holds.
    pub fn new() -> (r: Self)
        ensures
            r == plain_annotations(),
    {
        Self::default()
    }

    /// The annotations that hints give. See [`hinted`].
    pub fn from_rmcp(rmcp: &RmcpToolAnnotations) -> (r: Self)
        ensures
            r == hinted(*rmcp),
    {
        ToolAnnotations {
            read_only: hint_value(rmcp.read_only_hint, false),
            destructive: hint_value(rmcp.destructive_hint, true),
            idempotent: hint_value(rmcp.idempotent_hint, false),
            open_world: hint_value(rmcp.open_world_hint, true),
        }
    }

    /// The annotations that hints give. Where there are none at all, nothing is
    /// said, and all is assumed for the worse. See [`hinted`].
    pub fn from_rmcp_option(rmcp: Option<&RmcpToolAnnotations>) -> (r: Self)
        ensures
            r == (match rmcp {
                Some(hints) => hinted(*hints),
                None => hinted(no_hints()),
            }),
    {
        match rmcp {
            Some(hints) => Self::from_rmcp(hints),
            None => Self::from_rmcp(
                &RmcpToolAnnotations {
                    read_only_hint: None,
                    destructive_hint: None,
                    idempotent_hint: None,
                    open_world_hint: None,
                },
            ),
        }
    }

    /// The same, read only or not.
    #[must_use]
    pub fn with_read_only(self, v: bool) -> (r: Self)
        ensures
            r == (ToolAnnotations { read_only: v, ..self }),
    {
        ToolAnnotations { read_only: v, ..self }
    }

    /// The same, destructive or not.
    #[must_use]
    pub fn with_destructive(self, v: bool) -> (r: Self)
        ensures
            r == (ToolAnnotations { destructive: v, ..self }),
    {
        ToolAnnotations { destructive: v, ..self }
    }

    /// The same, reaching out or not.
    #[must_use]
    pub fn with_open_world(self, v: bool) -> (r: Self)
        ensures
            r == (ToolAnnotations { open_world: v, ..self }),
    {
        ToolAnnotations { open_world: v, ..self }
    }

    /// Whether a call needs approval: the tool destroys, and does not only read.
    #[must_use]
    pub fn should_require_approval(&self) -> (r: bool)
        ensures
            r == needs_approval(*self),
    {
        self.destructive && !self.read_only
    }
}

/// A call needs approval where the tool destroys and does not only read.
pub open spec fn needs_approval(a: ToolAnnotations) -> bool {
    a.destructive && !a.read_only
}

/// A call needs approval unless a hint clears it: one that the tool only reads,
/// or one that it destroys nothing. So a tool without any hints needs approval.
pub proof fn law_approval_unless_cleared(hints: RmcpToolAnnotations)
    ensures
        needs_approval(hinted(hints)) == !(hints.read_only_hint == Some(true)
            || hints.destructive_hint == Some(false)),
        needs_approval(hinted(no_hints())),
{
}

/// The annotations that a rule can ask for.
#[derive(Debug, Clone, Copy, PartialEq, Eq, Hash)]
pub enum AnnotationType {
    Destructive,
    ReadOnly,
    Idempotent,
    OpenWorld,
}

impl AnnotationType {
    /// Whether the annotation holds.
    pub fn matches(&self, annotations: &ToolAnnotations) -> (r: bool)
        ensures
            r == (match *self {
                AnnotationType::Destructive => annotations.destructive,
                AnnotationType::ReadOnly => annotations.read_only,
                AnnotationType::Idempotent => annotations.idempotent,
                AnnotationType::OpenWorld => annotations.open_world,
            }),
    {
        match self {
            AnnotationType::Destructive => annotations.destructive,
            AnnotationType::ReadOnly => annotations.read_only,
            AnnotationType::Idempotent => annotations.idempotent,
            AnnotationType::OpenWorld => annotations.open_world,
        }
    }
}

} // verus!
