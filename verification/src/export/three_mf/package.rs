//! The fixed parts of a 3MF package: content types and relationships.

use vstd::prelude::*;
use vstd::string::*;

verus! {

/// Where the model document lives in the package.
pub const MODEL_PATH: &'static str = "3D/3dmodel.model";

/// The `[Content_Types].xml` part: the MIME type of each file extension
/// in the package.
pub fn content_types() -> (s: String)
    ensures
        s@ == "<?xml version=\"1.0\" encoding=\"utf-8\"?>
<Types xmlns=\"http://schemas.openxmlformats.org/package/2006/content-types\">
\t<Default
        Extension=\"model\"
        ContentType=\"application/vnd.ms-package.3dmanufacturing-3dmodel+xml\" />
\t<Default
        Extension=\"rels\"
        ContentType=\"application/vnd.openxmlformats-package.relationships+xml\" />
\t<Default
        Extension=\"texture\"
        ContentType=\"application/vnd.ms-package.3dmanufacturing-3dmodeltexture\" />
</Types>
"@,
{
    String::from_str(
        "<?xml version=\"1.0\" encoding=\"utf-8\"?>
<Types xmlns=\"http://schemas.openxmlformats.org/package/2006/content-types\">
\t<Default
        Extension=\"model\"
        ContentType=\"application/vnd.ms-package.3dmanufacturing-3dmodel+xml\" />
\t<Default
        Extension=\"rels\"
        ContentType=\"application/vnd.openxmlformats-package.relationships+xml\" />
\t<Default
        Extension=\"texture\"
        ContentType=\"application/vnd.ms-package.3dmanufacturing-3dmodeltexture\" />
</Types>
",
    )
}

/// The text of the `_rels/.rels` part before the model path.
pub open spec fn relationships_head() -> Seq<char> {
    "<?xml version=\"1.0\" encoding=\"utf-8\"?>
<Relationships
    xmlns=\"http://schemas.openxmlformats.org/package/2006/relationships\">
\t<Relationship
        Target=\"/"@
}

/// The text of the `_rels/.rels` part after the model path.
pub open spec fn relationships_tail() -> Seq<char> {
    "\"
        Id=\"rel0\"
        Type=\"http://schemas.microsoft.com/3dmanufacturing/2013/01/3dmodel\" />
</Relationships>
"@
}

/// The `_rels/.rels` part: one relationship that points to the model
/// document at `model_path`.
pub fn relationships(model_path: &str) -> (s: String)
    ensures
        s@ == relationships_head() + model_path@ + relationships_tail(),
{
    let mut s = String::from_str(
        "<?xml version=\"1.0\" encoding=\"utf-8\"?>
<Relationships
    xmlns=\"http://schemas.openxmlformats.org/package/2006/relationships\">
\t<Relationship
        Target=\"/",
    );
    s.append(model_path);
    s.append(
        "\"
        Id=\"rel0\"
        Type=\"http://schemas.microsoft.com/3dmanufacturing/2013/01/3dmodel\" />
</Relationships>
",
    );
    s
}

} // verus!
