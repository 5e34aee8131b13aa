//! Class-building bookkeeping: the decisions behind declaring a class.
//!
//! Registering a class with the runtime is outside work; what stands here
//! is the logic that guards it: which selectors a protocol allows to be
//! added, that no selector is added twice, and that every required
//! protocol method was implemented before the class is finished. Callers
//! drive the actual runtime registration with the values these methods
//! hand back.

use vstd::prelude::*;
use vstd::string::StringExecFns;

verus! {

/// Kinds of class mutability a class can declare.
pub trait Mutability {

}

/// The mutability of a root class.
pub struct Root;

impl Mutability for Root {

}

/// The mutability of an immutable class.
pub struct Immutable;

impl Mutability for Immutable {

}

/// The mutability of a mutable class.
pub struct Mutable;

impl Mutability for Mutable {

}

/// The mutability of a class that is interiorly mutable.
pub struct InteriorMutable;

impl Mutability for InteriorMutable {

}

/// The mutability of a class usable only from the main thread.
pub struct MainThreadOnly;

impl Mutability for MainThreadOnly {

}

/// Types that stand for a declared class: a superclass and a mutability.
pub trait ClassType {
    /// The superclass.
    type Super;

    /// The mutability.
    type Mutability;
}

/// Which subclass mutabilities a superclass mutability admits.
pub trait ValidSubclassMutability<T: Mutability> {

}

impl ValidSubclassMutability<Immutable> for Root {

}

impl ValidSubclassMutability<Mutable> for Root {

}

impl ValidSubclassMutability<InteriorMutable> for Root {

}

impl ValidSubclassMutability<MainThreadOnly> for Root {

}

impl ValidSubclassMutability<Immutable> for Immutable {

}

impl ValidSubclassMutability<Mutable> for Mutable {

}

impl ValidSubclassMutability<InteriorMutable> for InteriorMutable {

}

impl ValidSubclassMutability<MainThreadOnly> for InteriorMutable {

}

impl ValidSubclassMutability<MainThreadOnly> for MainThreadOnly {

}

/// Ensure that a class type is not a root class and declares a mutability
/// its superclass admits. Everything is checked by the trait bounds; the
/// body has nothing left to do.
pub fn assert_mutability_matches_superclass_mutability<T>() where
    T: ?Sized + ClassType,
    T::Super: ClassType,
    T::Mutability: Mutability,
    <T::Super as ClassType>::Mutability: ValidSubclassMutability<T::Mutability>,
 {
}

/// A method a protocol describes: its selector and its type encodings.
#[derive(Debug)]
pub struct MethodDescription {
    /// The method's selector.
    pub sel: String,
    /// The method's type encoding string.
    pub types: String,
}

/// What can go wrong while recording methods against a protocol.
#[derive(Clone, Copy, Debug, PartialEq, Eq, Structural)]
pub enum DeclareError {
    /// The selector is not a method of the protocol.
    MethodNotFound,
    /// The selector was already added.
    AlreadyAdded,
    /// A required protocol method was never added.
    MissingRequiredMethod,
}

/// Whether one of the descriptions carries the selector.
pub open spec fn descs_have_sel(v: Seq<MethodDescription>, s: Seq<char>) -> bool {
    exists|i: int| 0 <= i < v.len() && (#[trigger] v[i]).sel@ == s
}

/// Whether one of the strings spells the selector.
pub open spec fn strs_have(v: Seq<String>, s: Seq<char>) -> bool {
    exists|i: int| 0 <= i < v.len() && (#[trigger] v[i])@ == s
}

/// Whether two string slices spell the same characters.
fn str_eq(a: &str, b: &str) -> (r: bool)
    ensures
        r == (a@ == b@),
{
    let ao: String = a.to_owned();
    let bo: String = b.to_owned();
    ao.eq(&bo)
}

/// Whether one of the descriptions carries the selector.
fn descs_contain(v: &Vec<MethodDescription>, sel: &str) -> (r: bool)
    ensures
        r == descs_have_sel(v@, sel@),
{
    let n = v.len();
    let mut i: usize = 0;
    while i < n
        invariant
            0 <= i <= n,
            n == v@.len(),
            forall|m: int| 0 <= m < i ==> (#[trigger] v@[m]).sel@ != sel@,
        decreases n - i,
    {
        if str_eq(v[i].sel.as_str(), sel) {
            return true;
        }
        i = i + 1;
    }
    false
}

/// Whether one of the strings spells the selector.
fn strs_contain(v: &Vec<String>, sel: &str) -> (r: bool)
    ensures
        r == strs_have(v@, sel@),
{
    let n = v.len();
    let mut i: usize = 0;
    while i < n
        invariant
            0 <= i <= n,
            n == v@.len(),
            forall|m: int| 0 <= m < i ==> (#[trigger] v@[m])@ != sel@,
        decreases n - i,
    {
        if str_eq(v[i].as_str(), sel) {
            return true;
        }
        i = i + 1;
    }
    false
}

/// The growing state of a class declaration: its name and what has been
/// added to it so far.
#[derive(Debug)]
pub struct ClassBuilderHelper {
    name: String,
    sels: Vec<String>,
    ivars: Vec<String>,
    protocols: Vec<String>,
}

/// A declared class: the state of a builder at registration.
#[derive(Debug)]
pub struct DeclaredClass {
    name: String,
    sels: Vec<String>,
    ivars: Vec<String>,
    protocols: Vec<String>,
}

impl DeclaredClass {
    /// The class name.
    pub closed spec fn spec_name(&self) -> Seq<char> {
        self.name@
    }

    /// The selectors of the methods the class got.
    pub closed spec fn spec_sels(&self) -> Seq<String> {
        self.sels@
    }

    /// The class name.
    pub fn name(&self) -> (r: &str)
        ensures
            r@ == self.spec_name(),
    {
        self.name.as_str()
    }
}

impl ClassBuilderHelper {
    /// The class name.
    pub closed spec fn spec_name(&self) -> Seq<char> {
        self.name@
    }

    /// The selectors of the methods added so far.
    pub closed spec fn spec_sels(&self) -> Seq<String> {
        self.sels@
    }

    /// The static instance variables added so far.
    pub closed spec fn spec_ivars(&self) -> Seq<String> {
        self.ivars@
    }

    /// The protocols added so far.
    pub closed spec fn spec_protocols(&self) -> Seq<String> {
        self.protocols@
    }

    /// Start declaring a class with the given name.
    pub fn new(name: &str) -> (b: ClassBuilderHelper)
        ensures
            b.spec_name() == name@,
            b.spec_sels().len() == 0,
            b.spec_ivars().len() == 0,
            b.spec_protocols().len() == 0,
    {
        ClassBuilderHelper {
            name: name.to_owned(),
            sels: Vec::new(),
            ivars: Vec::new(),
            protocols: Vec::new(),
        }
    }

    /// Record that the class adopts a protocol, and start recording its
    /// methods against the protocol's method descriptions.
    pub fn add_protocol_methods(
        self,
        protocol: &str,
        required_instance_methods: Vec<MethodDescription>,
        optional_instance_methods: Vec<MethodDescription>,
        required_class_methods: Vec<MethodDescription>,
        optional_class_methods: Vec<MethodDescription>,
    ) -> (b: ClassProtocolMethodsBuilder)
        ensures
            b.builder().spec_name() == self.spec_name(),
            b.builder().spec_sels() == self.spec_sels(),
            b.builder().spec_ivars() == self.spec_ivars(),
            b.builder().spec_protocols().len() == self.spec_protocols().len() + 1,
            b.builder().spec_protocols().last()@ == protocol@,
            b.builder().spec_protocols().drop_last() == self.spec_protocols(),
            b.spec_required_instance() == required_instance_methods@,
            b.spec_optional_instance() == optional_instance_methods@,
            b.spec_required_class() == required_class_methods@,
            b.spec_optional_class() == optional_class_methods@,
            b.spec_registered_instance().len() == 0,
            b.spec_registered_class().len() == 0,
    {
        let mut builder = self;
        builder.protocols.push(protocol.to_owned());
        proof {
            assert(builder.protocols@.drop_last() =~= self.protocols@);
        }
        ClassProtocolMethodsBuilder {
            builder,
            required_instance_methods,
            optional_instance_methods,
            registered_instance_methods: Vec::new(),
            required_class_methods,
            optional_class_methods,
            registered_class_methods: Vec::new(),
        }
    }

    /// Record a static instance variable.
    pub fn add_static_ivar(&mut self, name: &str)
        ensures
            final(self).spec_name() == old(self).spec_name(),
            final(self).spec_sels() == old(self).spec_sels(),
            final(self).spec_protocols() == old(self).spec_protocols(),
            final(self).spec_ivars().len() == old(self).spec_ivars().len() + 1,
            final(self).spec_ivars().last()@ == name@,
            final(self).spec_ivars().drop_last() == old(self).spec_ivars(),
    {
        self.ivars.push(name.to_owned());
        proof {
            assert(self.ivars@.drop_last() =~= old(self).ivars@);
        }
    }

    /// Finish the declaration: everything recorded is handed over for the
    /// caller to register.
    pub fn register(self) -> (c: DeclaredClass)
        ensures
            c.spec_name() == self.spec_name(),
            c.spec_sels() == self.spec_sels(),
    {
        DeclaredClass {
            name: self.name,
            sels: self.sels,
            ivars: self.ivars,
            protocols: self.protocols,
        }
    }
}

/// Bookkeeping for recording methods against one protocol: only methods
/// the protocol describes may be added, none twice, and at the end every
/// required method must have been added or be handled by the superclass.
#[derive(Debug)]
pub struct ClassProtocolMethodsBuilder {
    builder: ClassBuilderHelper,
    required_instance_methods: Vec<MethodDescription>,
    optional_instance_methods: Vec<MethodDescription>,
    registered_instance_methods: Vec<String>,
    required_class_methods: Vec<MethodDescription>,
    optional_class_methods: Vec<MethodDescription>,
    registered_class_methods: Vec<String>,
}

impl ClassProtocolMethodsBuilder {
    /// The class declaration being built.
    pub closed spec fn builder(&self) -> ClassBuilderHelper {
        self.builder
    }

    /// The protocol's required instance methods.
    pub closed spec fn spec_required_instance(&self) -> Seq<MethodDescription> {
        self.required_instance_methods@
    }

    /// The protocol's optional instance methods.
    pub closed spec fn spec_optional_instance(&self) -> Seq<MethodDescription> {
        self.optional_instance_methods@
    }

    /// The instance-method selectors recorded so far.
    pub closed spec fn spec_registered_instance(&self) -> Seq<String> {
        self.registered_instance_methods@
    }

    /// The protocol's required class methods.
    pub closed spec fn spec_required_class(&self) -> Seq<MethodDescription> {
        self.required_class_methods@
    }

    /// The protocol's optional class methods.
    pub closed spec fn spec_optional_class(&self) -> Seq<MethodDescription> {
        self.optional_class_methods@
    }

    /// The class-method selectors recorded so far.
    pub closed spec fn spec_registered_class(&self) -> Seq<String> {
        self.registered_class_methods@
    }

    /// Record an instance method override: the selector must be a method
    /// of the protocol and must not have been added before.
    pub fn add_method(&mut self, sel: &str) -> (r: Result<(), DeclareError>)
        ensures
            r == Result::<(), DeclareError>::Err(DeclareError::MethodNotFound) <==> !(
            descs_have_sel(old(self).spec_required_instance(), sel@) || descs_have_sel(
                old(self).spec_optional_instance(),
                sel@,
            )),
            r == Result::<(), DeclareError>::Err(DeclareError::AlreadyAdded) <==> ((
            descs_have_sel(old(self).spec_required_instance(), sel@) || descs_have_sel(
                old(self).spec_optional_instance(),
                sel@,
            )) && strs_have(old(self).spec_registered_instance(), sel@)),
            r is Ok <==> ((descs_have_sel(old(self).spec_required_instance(), sel@)
                || descs_have_sel(old(self).spec_optional_instance(), sel@)) && !strs_have(
                old(self).spec_registered_instance(),
                sel@,
            )),
            r is Err ==> *final(self) == *old(self),
            r is Ok ==> final(self).spec_registered_instance().len() == old(self).spec_registered_instance().len() + 1 && final(self).spec_registered_instance().last()@ == sel@ && final(self).spec_registered_instance().drop_last() == old(self).spec_registered_instance()
                && final(self).builder().spec_sels().len() == old(self).builder().spec_sels().len()
                + 1 && final(self).builder().spec_sels().last()@ == sel@ && final(self).builder().spec_sels().drop_last() == old(self).builder().spec_sels(),
            r is Ok ==> final(self).spec_required_instance() == old(self).spec_required_instance()
                && final(self).spec_optional_instance() == old(self).spec_optional_instance()
                && final(self).spec_required_class() == old(self).spec_required_class() && final(self).spec_optional_class() == old(self).spec_optional_class() && final(self).spec_registered_class() == old(self).spec_registered_class() && final(self).builder().spec_name() == old(self).builder().spec_name() && final(self).builder().spec_ivars() == old(self).builder().spec_ivars() && final(self).builder().spec_protocols() == old(self).builder().spec_protocols(),
    {
        if !descs_contain(&self.required_instance_methods, sel) && !descs_contain(
            &self.optional_instance_methods,
            sel,
        ) {
            return Err(DeclareError::MethodNotFound);
        }
        if strs_contain(&self.registered_instance_methods, sel) {
            return Err(DeclareError::AlreadyAdded);
        }
        self.registered_instance_methods.push(sel.to_owned());
        self.builder.sels.push(sel.to_owned());
        proof {
            assert(self.registered_instance_methods@.drop_last() =~= old(self).registered_instance_methods@);
            assert(self.builder.sels@.drop_last() =~= old(self).builder.sels@);
        }
        Ok(())
    }

    /// Record a class method override: the selector must be a class method
    /// of the protocol and must not have been added before.
    pub fn add_class_method(&mut self, sel: &str) -> (r: Result<(), DeclareError>)
        ensures
            r == Result::<(), DeclareError>::Err(DeclareError::MethodNotFound) <==> !(
            descs_have_sel(old(self).spec_required_class(), sel@) || descs_have_sel(
                old(self).spec_optional_class(),
                sel@,
            )),
            r == Result::<(), DeclareError>::Err(DeclareError::AlreadyAdded) <==> ((
            descs_have_sel(old(self).spec_required_class(), sel@) || descs_have_sel(
                old(self).spec_optional_class(),
                sel@,
            )) && strs_have(old(self).spec_registered_class(), sel@)),
            r is Ok <==> ((descs_have_sel(old(self).spec_required_class(), sel@)
                || descs_have_sel(old(self).spec_optional_class(), sel@)) && !strs_have(
                old(self).spec_registered_class(),
                sel@,
            )),
            r is Err ==> *final(self) == *old(self),
            r is Ok ==> final(self).spec_registered_class().len() == old(self).spec_registered_class().len() + 1 && final(self).spec_registered_class().last()@
                == sel@ && final(self).spec_registered_class().drop_last() == old(self).spec_registered_class() && final(self).builder().spec_sels().len() == old(self).builder().spec_sels().len() + 1 && final(self).builder().spec_sels().last()@ == sel@ && final(self).builder().spec_sels().drop_last() == old(self).builder().spec_sels(),
            r is Ok ==> final(self).spec_required_instance() == old(self).spec_required_instance()
                && final(self).spec_optional_instance() == old(self).spec_optional_instance()
                && final(self).spec_required_class() == old(self).spec_required_class() && final(self).spec_optional_class() == old(self).spec_optional_class() && final(self).spec_registered_instance() == old(self).spec_registered_instance() && final(self).builder().spec_name() == old(self).builder().spec_name() && final(self).builder().spec_ivars() == old(self).builder().spec_ivars() && final(self).builder().spec_protocols() == old(self).builder().spec_protocols(),
    {
        if !descs_contain(&self.required_class_methods, sel) && !descs_contain(
            &self.optional_class_methods,
            sel,
        ) {
            return Err(DeclareError::MethodNotFound);
        }
        if strs_contain(&self.registered_class_methods, sel) {
            return Err(DeclareError::AlreadyAdded);
        }
        self.registered_class_methods.push(sel.to_owned());
        self.builder.sels.push(sel.to_owned());
        proof {
            assert(self.registered_class_methods@.drop_last() =~= old(self).registered_class_methods@);
            assert(self.builder.sels@.drop_last() =~= old(self).builder.sels@);
        }
        Ok(())
    }

    /// Finish recording: every required method of the protocol must have
    /// been added here, unless the superclass already responds to its
    /// selector. On success the class declaration is handed back.
    pub fn finish(
        self,
        superclass_instance_sels: &Vec<String>,
        superclass_class_sels: &Vec<String>,
    ) -> (r: Result<ClassBuilderHelper, DeclareError>)
        ensures
            r is Ok <==> ((forall|i: int|
                0 <= i < self.spec_required_instance().len() ==> strs_have(
                    self.spec_registered_instance(),
                    (#[trigger] self.spec_required_instance()[i]).sel@,
                ) || strs_have(
                    superclass_instance_sels@,
                    self.spec_required_instance()[i].sel@,
                )) && (forall|i: int|
                0 <= i < self.spec_required_class().len() ==> strs_have(
                    self.spec_registered_class(),
                    (#[trigger] self.spec_required_class()[i]).sel@,
                ) || strs_have(superclass_class_sels@, self.spec_required_class()[i].sel@))),
            r is Err ==> r == Result::<ClassBuilderHelper, DeclareError>::Err(
                DeclareError::MissingRequiredMethod,
            ),
            r is Ok ==> r->Ok_0 == self.builder(),
    {
        let n = self.required_instance_methods.len();
        let mut i: usize = 0;
        while i < n
            invariant
                0 <= i <= n,
                n == self.required_instance_methods@.len(),
                forall|m: int|
                    0 <= m < i ==> strs_have(
                        self.registered_instance_methods@,
                        (#[trigger] self.required_instance_methods@[m]).sel@,
                    ) || strs_have(
                        superclass_instance_sels@,
                        self.required_instance_methods@[m].sel@,
                    ),
            decreases n - i,
        {
            let d = &self.required_instance_methods[i];
            if !strs_contain(&self.registered_instance_methods, d.sel.as_str()) && !strs_contain(
                superclass_instance_sels,
                d.sel.as_str(),
            ) {
                proof {
                    assert((#[trigger] self.spec_required_instance()[i as int]).sel@ == d.sel@);
                    assert(!(strs_have(
                        self.spec_registered_instance(),
                        self.spec_required_instance()[i as int].sel@,
                    ) || strs_have(
                        superclass_instance_sels@,
                        self.spec_required_instance()[i as int].sel@,
                    )));
                }
                return Err(DeclareError::MissingRequiredMethod);
            }
            i = i + 1;
        }
        let nc = self.required_class_methods.len();
        let mut k: usize = 0;
        while k < nc
            invariant
                0 <= k <= nc,
                nc == self.required_class_methods@.len(),
                forall|m: int|
                    0 <= m < k ==> strs_have(
                        self.registered_class_methods@,
                        (#[trigger] self.required_class_methods@[m]).sel@,
                    ) || strs_have(superclass_class_sels@, self.required_class_methods@[m].sel@),
            decreases nc - k,
        {
            let d = &self.required_class_methods[k];
            if !strs_contain(&self.registered_class_methods, d.sel.as_str()) && !strs_contain(
                superclass_class_sels,
                d.sel.as_str(),
            ) {
                proof {
                    assert((#[trigger] self.spec_required_class()[k as int]).sel@ == d.sel@);
                    assert(!(strs_have(
                        self.spec_registered_class(),
                        self.spec_required_class()[k as int].sel@,
                    ) || strs_have(
                        superclass_class_sels@,
                        self.spec_required_class()[k as int].sel@,
                    )));
                }
                return Err(DeclareError::MissingRequiredMethod);
            }
            k = k + 1;
        }
        Ok(self.builder)
    }
}

} // verus!
