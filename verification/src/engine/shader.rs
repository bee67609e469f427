//! Bookkeeping of a shader program: which compiled shaders are attached and
//! whether the program has been linked. The graphics calls themselves are
//! made by the caller with the ids this state hands out.
use vstd::prelude::*;

verus! {

/// The stage a shader source file is compiled for.
pub enum ShaderStage {
    Vertex,
    Fragment,
}

/// A shader program: its id, the shaders attached to it and not yet
/// released, and whether it has been linked.
pub struct Shader {
    program: u32,
    shaders: Vec<u32>,
    linked: bool,
}

/// The value of a [`Shader`].
pub struct ShaderView {
    pub program: u32,
    pub shaders: Seq<u32>,
    pub linked: bool,
}

/// The state after linking: the attached shaders are released; linking a
/// linked program changes nothing.
pub open spec fn linked_state(s: ShaderView) -> ShaderView {
    ShaderView { program: s.program, shaders: Seq::empty(), linked: true }
}

impl View for Shader {
    type V = ShaderView;

    closed spec fn view(&self) -> ShaderView {
        ShaderView { program: self.program, shaders: self.shaders@, linked: self.linked }
    }
}

impl Shader {
    /// A linked program has released all its shaders.
    #[verifier::type_invariant]
    spec fn released_when_linked(self) -> bool {
        self.linked ==> self.shaders@.len() == 0
    }

    /// A fresh, unlinked program with no shaders attached.
    pub fn new(program: u32) -> (s: Shader)
        ensures
            s@ == (ShaderView { program, shaders: Seq::empty(), linked: false }),
    {
        Shader { program, shaders: Vec::new(), linked: false }
    }

    /// The program id.
    pub fn program(&self) -> (p: u32)
        ensures
            p == self@.program,
    {
        self.program
    }

    /// Whether the program has been linked.
    pub fn is_linked(&self) -> (b: bool)
        ensures
            b == self@.linked,
            b ==> self@.shaders.len() == 0,
    {
        proof {
            use_type_invariant(self);
        }
        self.linked
    }

    /// The shaders attached and not yet released.
    pub fn shaders(&self) -> (v: Vec<u32>)
        ensures
            v@ == self@.shaders,
            self@.linked ==> v@.len() == 0,
    {
        proof {
            use_type_invariant(self);
        }
        self.shaders.clone()
    }

    /// Records that the compiled shader `shader` is attached to the program.
    /// Shaders can only be added before the program is linked.
    pub fn add_shader(&mut self, shader: u32)
        requires
            !old(self)@.linked,
        ensures
            final(self)@ == (ShaderView { shaders: old(self)@.shaders.push(shader), ..old(self)@ }),
    {
        let mut attached: Vec<u32> = Vec::new();
        std::mem::swap(&mut attached, &mut self.shaders);
        attached.push(shader);
        self.shaders = attached;
    }

    /// Marks the program linked. Returns `None` if it already was (nothing is
    /// to be done), otherwise the shaders to detach and delete now that the
    /// program is linked.
    pub fn link(&mut self) -> (released: Option<Vec<u32>>)
        ensures
            final(self)@ == linked_state(old(self)@),
            old(self)@.linked ==> final(self)@ == old(self)@,
            old(self)@.linked ==> released is None,
            !old(self)@.linked ==> (released matches Some(v) && v@ == old(self)@.shaders),
    {
        proof {
            use_type_invariant(&*self);
        }
        if self.linked {
            assert(self@.shaders =~= Seq::<u32>::empty());
            return None;
        }
        let mut released: Vec<u32> = Vec::new();
        std::mem::swap(&mut released, &mut self.shaders);
        self.linked = true;
        Some(released)
    }
}

/// The stage of a shader file, by its name: `.vert` files are vertex
/// shaders, `.frag` files fragment shaders, other files are not shaders.
pub open spec fn stage_of_name(name: Seq<char>) -> Option<ShaderStage> {
    if name.len() >= 5 && name.subrange(name.len() - 5, name.len() as int) == seq!['.', 'v', 'e', 'r', 't'] {
        Some(ShaderStage::Vertex)
    } else if name.len() >= 5 && name.subrange(name.len() - 5, name.len() as int) == seq!['.', 'f', 'r', 'a', 'g'] {
        Some(ShaderStage::Fragment)
    } else {
        None
    }
}

/// The stage of the shader file `name` (see [`stage_of_name`]).
pub fn shader_stage_of(name: &str) -> (r: Option<ShaderStage>)
    ensures
        r == stage_of_name(name@),
{
    let cs = crate::text::chars_of(name);
    let n = cs.len();
    if n < 5 {
        return None;
    }
    let ghost tail = name@.subrange(n - 5, n as int);
    let is_vert = cs[n - 5] == '.' && cs[n - 4] == 'v' && cs[n - 3] == 'e' && cs[n - 2] == 'r' && cs[n - 1] == 't';
    let is_frag = cs[n - 5] == '.' && cs[n - 4] == 'f' && cs[n - 3] == 'r' && cs[n - 2] == 'a' && cs[n - 1] == 'g';
    proof {
        assert(tail.len() == 5);
        assert(forall|k: int| 0 <= k < 5 ==> tail[k] == cs@[n - 5 + k]);
        assert(is_vert == (tail =~= seq!['.', 'v', 'e', 'r', 't']));
        assert(is_frag == (tail =~= seq!['.', 'f', 'r', 'a', 'g']));
    }
    if is_vert {
        Some(ShaderStage::Vertex)
    } else if is_frag {
        Some(ShaderStage::Fragment)
    } else {
        None
    }
}

/// Linking is idempotent: linking a linked program leaves it as it is.
pub proof fn link_is_idempotent(s: ShaderView)
    ensures
        linked_state(linked_state(s)) == linked_state(s),
{
}

} // verus!
