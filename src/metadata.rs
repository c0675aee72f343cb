//! The metadata lookup service that maps method and type tokens to names.

use vstd::prelude::*;
use vstd::string::StringExecFns;

verus! {

/// Properties of a method definition.
#[derive(Clone, Debug)]
pub struct MethodProps {
    pub name: String,
    /// Token of the type that defines the method.
    pub class_token: u32,
}

/// Properties of a type definition.
#[derive(Clone, Debug)]
pub struct TypeDefProps {
    pub name: String,
}

/// Metadata of one module, queried by token. A failure is reported as the runtime's
/// status code.
pub trait MetadataImportTrait {
    fn get_method_props(&self, mb: u32) -> Result<MethodProps, i32>;

    fn get_type_def_props(&self, td: u32) -> Result<TypeDefProps, i32>;
}

/// A method whose identity has been resolved.
#[derive(Clone, Debug)]
pub struct ResolvedMethod {
    pub module_id: u64,
    pub token: u32,
    pub class_name: String,
    pub method_name: String,
}

/// `Type.Method`.
pub open spec fn qualified(class_name: Seq<char>, method_name: Seq<char>) -> Seq<char> {
    class_name + seq!['.'] + method_name
}

/// Resolves a method of a module to its name and the name of its type: asks for the
/// method's properties by `token`, then for those of the type whose token they give, and
/// builds the result with `resolved_from`. A failed lookup's status is passed on.
pub fn resolve_method<M: MetadataImportTrait>(md: &M, module_id: u64, token: u32) -> (r: Result<
    ResolvedMethod,
    i32,
>)
    ensures
        r matches Ok(rm) ==> rm.module_id == module_id && rm.token == token,
{
    let method = match md.get_method_props(token) {
        Err(e) => {
            return Err(e);
        },
        Ok(p) => p,
    };
    let class = match md.get_type_def_props(method.class_token) {
        Err(e) => {
            return Err(e);
        },
        Ok(p) => p,
    };
    Ok(resolved_from(module_id, token, method, class))
}

/// The resolved method made of the two lookups' answers: the method's name from its own
/// properties, the type's name from the properties of the type that defines it.
pub fn resolved_from(module_id: u64, token: u32, method: MethodProps, class: TypeDefProps) -> (r:
    ResolvedMethod)
    ensures
        r.module_id == module_id,
        r.token == token,
        r.method_name@ == method.name@,
        r.class_name@ == class.name@,
{
    ResolvedMethod { module_id, token, class_name: class.name, method_name: method.name }
}

impl ResolvedMethod {
    /// The qualified name, `Type.Method`.
    pub fn qualified_name(&self) -> (r: String)
        ensures
            r@ == qualified(self.class_name@, self.method_name@),
    {
        let mut s = String::from_str(self.class_name.as_str());
        s.append(".");
        s.append(self.method_name.as_str());
        proof {
            reveal_strlit(".");
        }
        assert(s@ =~= qualified(self.class_name@, self.method_name@));
        s
    }
}

} // verus!
