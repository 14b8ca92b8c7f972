//! Script projects: their data model, and the script that creates a feedback form.
use vstd::prelude::*;
use crate::text::{join, join_with, views};

verus! {

/// A script project.
#[derive(Debug)]
pub struct Project {
    pub script_id: Option<String>,
    pub title: Option<String>,
    pub parent_id: Option<String>,
    pub create_time: Option<String>,
    pub update_time: Option<String>,
    pub creator: Option<User>,
    pub last_modify_user: Option<User>,
}

/// A user of a script project.
#[derive(Debug)]
pub struct User {
    pub domain: String,
    pub email: String,
    pub name: String,
    pub photo_url: String,
}

/// A file of a script project.
#[derive(Debug)]
pub struct File {
    pub name: String,
    pub file_type: FileType,
    pub source: String,
    pub last_modify_user: Option<User>,
    pub create_time: Option<String>,
    pub update_time: Option<String>,
    pub function_set: Option<FunctionSet>,
}

/// What a file of a script project holds.
#[derive(Clone, Copy, Debug, PartialEq, Eq, Structural)]
pub enum FileType {
    EnumTypeUnspecified,
    ServerJs,
    Html,
    Json,
}

impl Default for FileType {
    fn default() -> (r: Self)
        ensures
            r == FileType::EnumTypeUnspecified,
    {
        FileType::EnumTypeUnspecified
    }
}

/// The functions of a script file.
#[derive(Clone, Copy, Debug, PartialEq, Eq, Structural)]
pub struct FunctionSet {}

/// The files of a script project.
#[derive(Debug)]
pub struct Content {
    pub script_id: String,
    pub files: Vec<File>,
}

/// The name of the file that holds the form script.
pub const SCRIPT_FILE: &'static str = "create_survey";

/// The name of the project's manifest file.
pub const MANIFEST_FILE: &'static str = "appsscript";

/// The project's manifest.
pub const MANIFEST: &'static str = r#"{"timeZone":"Europe/Berlin","dependencies":{},"exceptionLogging":"STACKDRIVER"}"#;

/// A new project with only a title.
pub fn new_project(title: String) -> (r: Project)
    ensures
        r.title matches Some(t) && t@ == title@,
        r.script_id is None && r.parent_id is None && r.create_time is None && r.update_time is None,
        r.creator is None && r.last_modify_user is None,
{
    Project {
        script_id: None,
        title: Some(title),
        parent_id: None,
        create_time: None,
        update_time: None,
        creator: None,
        last_modify_user: None,
    }
}

/// A file with a name, a type and a source, and nothing else.
pub open spec fn is_plain_file(f: File, name: Seq<char>, file_type: FileType, source: Seq<char>) -> bool {
    &&& f.name@ == name
    &&& f.file_type == file_type
    &&& f.source@ == source
    &&& f.last_modify_user is None && f.create_time is None && f.update_time is None && f.function_set is None
}

fn plain_file(name: &str, file_type: FileType, source: String) -> (r: File)
    ensures
        is_plain_file(r, name@, file_type, source@),
{
    File {
        name: String::from_str(name),
        file_type,
        source,
        last_modify_user: None,
        create_time: None,
        update_time: None,
        function_set: None,
    }
}

/// The content of a project: the form script, then the manifest.
pub fn script_content(script_id: &str, source: String) -> (r: Content)
    ensures
        r.script_id@ == script_id@,
        r.files@.len() == 2,
        is_plain_file(r.files@[0], SCRIPT_FILE@, FileType::ServerJs, source@),
        is_plain_file(r.files@[1], MANIFEST_FILE@, FileType::Json, MANIFEST@),
{
    let files = vec![
        plain_file(SCRIPT_FILE, FileType::ServerJs, source),
        plain_file(MANIFEST_FILE, FileType::Json, String::from_str(MANIFEST)),
    ];
    Content { script_id: String::from_str(script_id), files }
}

/// What stands between two questions in the script's lists of questions.
pub const QUESTION_SEPARATOR: &'static str = "\",\"";

/// Part 1 of the form script.
pub const FORM_0: &'static str = r###"function createForm() {
   // configuration
   var cPersonName = ""###;

/// Part 2 of the form script.
pub const FORM_1: &'static str = r###"";
   var cPersonSurname = ""###;

/// Part 3 of the form script.
pub const FORM_2: &'static str = r###"";
   var cOccasion = ""###;

/// Part 4 of the form script.
pub const FORM_3: &'static str = r###"";
   var folderId = ""###;

/// Part 5 of the form script.
pub const FORM_4: &'static str = r###"";
  
   // create & name Form  
   var auxDate = new Date();
   var formDate = auxDate.getFullYear().toString() + (auxDate.getMonth() + 1).toString() + auxDate.getDate().toString();

   var item = ""###;

/// Part 6 of the form script.
pub const FORM_5: &'static str = r###": ##name## ##surname## - ##occasion##"
      .replace("##name##", cPersonName)
      .replace("##surname##", cPersonSurname)
      .replace("##occasion##", cOccasion);

   var itemDesc = ""###;

/// Part 7 of the form script.
pub const FORM_6: &'static str = r###"";
   var form = FormApp.create(item)  
       .setTitle(item)
       .setDescription(itemDesc)
       .setCollectEmail(true)
       .setLimitOneResponsePerUser(true)
       .setShuffleQuestions(true)
       .setShowLinkToRespondAgain(false)
       .setProgressBar(true);

   // section 1 agree or disagree   
   var pageTwo = form.addPageBreakItem()
       .setTitle("Agree or Disagree")
       .setGoToPage(FormApp.PageNavigationType.CONTINUE)
       .setHelpText("Agree or disagree with the provided statements. The scale should be interpreted as follows: 1 - strongly disagree, 5 - neutral, 10 - strongly agree.");

  var qs = [""###;

/// Part 8 of the form script.
pub const FORM_7: &'static str = r###""];
      
   qs.forEach(function (v, i) {
     form.addScaleItem()
       .setTitle(v)  
       .setBounds(1, 10)
       .setLabels("strongly disagree","strongly agree")
       .setRequired(true);
   });
                
  // section 2 Strenths and Improvements
  var text_qs = [""###;

/// Part 9 of the form script.
pub const FORM_8: &'static str = r###""];
  
  form.addPageBreakItem()
       .setTitle("Strengths and Improvements")
       .setGoToPage(FormApp.PageNavigationType.CONTINUE)
       .setHelpText("You have 2 boxes to add a text or list about your Strengths and Improvements. The text in this section will be shared directly.");  
  
  text_qs.forEach(function (v, i) {
      form.addParagraphTextItem()
      .setTitle(v)
      .setRequired(true);
    });
  
   // move to the right folder
   var file = DriveApp.getFileById(form.getId());
   DriveApp.getFolderById(folderId).addFile(file);
   DriveApp.getRootFolder().removeFile(file); 
}
"###;

/// The form script: it creates a form titled after the person and the occasion,
/// with a page of graded statements and a page of free-text questions, and files
/// it in the given folder.
pub open spec fn form_script(
    assessment_kind: Seq<char>,
    first_name: Seq<char>,
    last_name: Seq<char>,
    occasion: Seq<char>,
    dir_id: Seq<char>,
    description: Seq<char>,
    graded: Seq<Seq<char>>,
    text: Seq<Seq<char>>,
) -> Seq<char> {
    FORM_0@ + first_name + FORM_1@ + last_name + FORM_2@ + occasion + FORM_3@ + dir_id + FORM_4@ + assessment_kind + FORM_5@ + description + FORM_6@ + join(graded, QUESTION_SEPARATOR@) + FORM_7@ + join(text, QUESTION_SEPARATOR@) + FORM_8@
}

/// The values that the form script is made of.
pub struct Template {
    assessment_kind: String,
    first_name: String,
    last_name: String,
    occasion: String,
    dir_id: String,
    description: String,
    graded_questions: Vec<String>,
    text_questions: Vec<String>,
}

impl Template {
    /// The form script of this template.
    pub closed spec fn script(&self) -> Seq<char> {
        form_script(
            self.assessment_kind@,
            self.first_name@,
            self.last_name@,
            self.occasion@,
            self.dir_id@,
            self.description@,
            views(self.graded_questions@),
            views(self.text_questions@),
        )
    }

    pub fn new(
        assessment_kind: String,
        first_name: String,
        last_name: String,
        occasion: String,
        dir_id: String,
        description: String,
        graded_questions: Vec<String>,
        text_questions: Vec<String>,
    ) -> (r: Self)
        ensures
            r.script() == form_script(
                assessment_kind@,
                first_name@,
                last_name@,
                occasion@,
                dir_id@,
                description@,
                views(graded_questions@),
                views(text_questions@),
            ),
    {
        Template {
            assessment_kind,
            first_name,
            last_name,
            occasion,
            dir_id,
            description,
            graded_questions,
            text_questions,
        }
    }

    /// The text of the form script.
    pub fn code(&self) -> (r: String)
        ensures
            r@ == self.script(),
    {
        let graded = join_with(self.graded_questions.as_slice(), QUESTION_SEPARATOR);
        let text = join_with(self.text_questions.as_slice(), QUESTION_SEPARATOR);
        let mut out = String::new();
        out.append(FORM_0);
        out.append(self.first_name.as_str());
        out.append(FORM_1);
        out.append(self.last_name.as_str());
        out.append(FORM_2);
        out.append(self.occasion.as_str());
        out.append(FORM_3);
        out.append(self.dir_id.as_str());
        out.append(FORM_4);
        out.append(self.assessment_kind.as_str());
        out.append(FORM_5);
        out.append(self.description.as_str());
        out.append(FORM_6);
        out.append(graded.as_str());
        out.append(FORM_7);
        out.append(text.as_str());
        out.append(FORM_8);
        assert(out@ =~= self.script());
        out
    }
}

} // verus!
