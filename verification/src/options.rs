use vstd::prelude::*;

verus! {

/// The policy flags of a filter pass.  Built once, read-only for the
/// duration of a pass; every flag defaults to `false`.
///
/// The caller-supplied extension hooks travel separately, as a
/// [`crate::hooks::FilterHooks`] implementation handed to the pass.
#[derive(Clone, Copy, Debug, PartialEq, Eq, Structural)]
pub struct PdfFilterOptions {
    ascii: bool,
    recurse: bool,
    sanitize: bool,
    instance_forms: bool,
}

impl Default for PdfFilterOptions {
    /// The configuration with every flag `false`.
    fn default() -> (r: Self)
        ensures
            !r.spec_ascii(),
            !r.spec_recurse(),
            !r.spec_sanitize(),
            !r.spec_instance_forms(),
    {
        PdfFilterOptions { ascii: false, recurse: false, sanitize: false, instance_forms: false }
    }
}

impl PdfFilterOptions {
    /// Whether binary operands are re-encoded printable-safe by the output
    /// stage.
    pub closed spec fn spec_ascii(self) -> bool {
        self.ascii
    }

    /// Whether the pass descends into invoked forms.
    pub closed spec fn spec_recurse(self) -> bool {
        self.recurse
    }

    /// Whether a normalizing stage repairs malformed operator sequences
    /// before filtering.
    pub closed spec fn spec_sanitize(self) -> bool {
        self.sanitize
    }

    /// Whether each distinct form body is emitted once and referenced by
    /// identity thereafter.
    pub closed spec fn spec_instance_forms(self) -> bool {
        self.instance_forms
    }

    /// The `ascii` flag: emit printable-safe encoding of binary operands.
    pub fn ascii(&self) -> (r: bool)
        ensures
            r == self.spec_ascii(),
    {
        self.ascii
    }

    /// Sets the `ascii` flag, returning the configuration for chaining.
    pub fn set_ascii(self, value: bool) -> (r: Self)
        ensures
            r.spec_ascii() == value,
            r.spec_recurse() == self.spec_recurse(),
            r.spec_sanitize() == self.spec_sanitize(),
            r.spec_instance_forms() == self.spec_instance_forms(),
    {
        PdfFilterOptions { ascii: value, ..self }
    }

    /// The `recurse` flag: descend into invoked forms rather than treating
    /// them as opaque.
    pub fn recurse(&self) -> (r: bool)
        ensures
            r == self.spec_recurse(),
    {
        self.recurse
    }

    /// Sets the `recurse` flag, returning the configuration for chaining.
    pub fn set_recurse(self, value: bool) -> (r: Self)
        ensures
            r.spec_recurse() == value,
            r.spec_ascii() == self.spec_ascii(),
            r.spec_sanitize() == self.spec_sanitize(),
            r.spec_instance_forms() == self.spec_instance_forms(),
    {
        PdfFilterOptions { recurse: value, ..self }
    }

    /// The `sanitize` flag: repair malformed operator sequences before
    /// filtering.
    pub fn sanitize(&self) -> (r: bool)
        ensures
            r == self.spec_sanitize(),
    {
        self.sanitize
    }

    /// Sets the `sanitize` flag, returning the configuration for chaining.
    pub fn set_sanitize(self, value: bool) -> (r: Self)
        ensures
            r.spec_sanitize() == value,
            r.spec_ascii() == self.spec_ascii(),
            r.spec_recurse() == self.spec_recurse(),
            r.spec_instance_forms() == self.spec_instance_forms(),
    {
        PdfFilterOptions { sanitize: value, ..self }
    }

    /// The `instance_forms` flag: emit each distinct form body once and
    /// reference it by identity on repeat invocation.
    pub fn instance_forms(&self) -> (r: bool)
        ensures
            r == self.spec_instance_forms(),
    {
        self.instance_forms
    }

    /// Sets the `instance_forms` flag, returning the configuration for
    /// chaining.
    pub fn set_instance_forms(self, value: bool) -> (r: Self)
        ensures
            r.spec_instance_forms() == value,
            r.spec_ascii() == self.spec_ascii(),
            r.spec_recurse() == self.spec_recurse(),
            r.spec_sanitize() == self.spec_sanitize(),
    {
        PdfFilterOptions { instance_forms: value, ..self }
    }
}

} // verus!
